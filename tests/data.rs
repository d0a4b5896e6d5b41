use std::collections::HashSet;
use std::hash::Hasher;

use rand::distributions::{Distribution, Uniform};
use rand::SeedableRng;
use siphasher::sip::SipHasher;

use sbr::data::{
    hash_routes_to_train, train_test_split, user_based_split, CompressedInteractions,
    Interaction, Interactions, TripletInteractions, HASH_DENOMINATOR,
};
use sbr::datasets::DatasetError;

fn chunk_lengths(compressed: &CompressedInteractions, chunk_size: usize) -> Vec<usize> {
    let mut lengths = Vec::new();
    let mut users = compressed.iter_users();
    while let Some(user) = users.next() {
        let mut chunks = user.chunks(chunk_size);
        while let Some((items, timestamps)) = chunks.next() {
            assert_eq!(items.len(), timestamps.len());
            lengths.push(items.len());
        }
    }
    lengths
}

fn single_user(len: usize) -> CompressedInteractions {
    let mut interactions = Interactions::new(1, len);
    for item in 0..len {
        interactions.push(Interaction::new(0, item, item));
    }
    interactions.to_compressed()
}

#[test]
fn to_compressed() {
    let num_users = 20;
    let num_items = 20;
    let num_interactions = 100;

    let user_range = Uniform::new(0, num_users);
    let item_range = Uniform::new(0, num_items);
    let timestamp_range = Uniform::new(0, 50);

    let mut rng = rand::XorShiftRng::from_seed([42; 16]);

    let interactions: Vec<_> = (0..num_interactions)
        .map(|_| {
            Interaction::new(
                user_range.sample(&mut rng),
                item_range.sample(&mut rng),
                timestamp_range.sample(&mut rng),
            )
        })
        .collect();

    let mut interaction_set = HashSet::with_capacity(interactions.len());
    for interaction in &interactions {
        interaction_set.insert(interaction.clone());
    }

    let mut store = Interactions::new(num_users, num_items);
    for interaction in interactions {
        store.push(interaction);
    }
    let key_range = Uniform::new(0, std::u64::MAX);
    let (key_0, key_1) = (key_range.sample(&mut rng), key_range.sample(&mut rng));
    let train_cutoff = (0.5_f32 * HASH_DENOMINATOR as f32) as u64;
    let (train, test) = user_based_split(&store, key_0, key_1, train_cutoff);

    let train = train.to_compressed().to_interactions();
    let test = test.to_compressed().to_interactions();

    assert_eq!(train.len() + test.len(), interaction_set.len());

    for interaction in train.data().iter().chain(test.data().iter()) {
        assert!(interaction_set.contains(interaction));
    }
}

#[test]
fn test_chunk_iterator() {
    let num_users = 1;
    let num_items = 5;

    let mut interactions = Vec::new();

    for user in 0..num_users {
        for item in 0..num_items {
            interactions.push(Interaction::new(user, item, item));
        }
    }

    let interactions = Interactions::from_vec(interactions).unwrap().to_compressed();

    let mut chunks = Vec::new();
    let mut users = interactions.iter_users();
    while let Some(user) = users.next() {
        let mut user_chunks = user.chunks(3);
        while let Some(chunk) = user_chunks.next() {
            chunks.push(chunk);
        }
    }

    assert_eq!(chunks.len(), 2);

    let expected = [
        (vec![0, 1_usize], vec![0, 1_usize]),
        (vec![2_usize, 3, 4], vec![2_usize, 3, 4]),
    ];

    chunks.iter().zip(expected.iter()).for_each(|(x, y)| {
        assert_eq!(&x.0, &y.0.as_slice());
        assert_eq!(&x.0, &y.1.as_slice());
    });
}

#[test]
fn end_to_end_compressed_index() {
    let store = Interactions::from_vec(vec![
        Interaction::new(0, 2, 5),
        Interaction::new(0, 1, 1),
        Interaction::new(1, 3, 2),
    ])
    .unwrap();
    assert_eq!(store.shape(), (2, 4));
    let compressed = store.to_compressed();
    assert_eq!(compressed.num_users(), 2);
    let user_0 = compressed.get_user(0).unwrap();
    assert_eq!(user_0.user_id, 0);
    assert_eq!(user_0.item_ids, &[1, 2]);
    assert_eq!(user_0.timestamps, &[1, 5]);
    let user_1 = compressed.get_user(1).unwrap();
    assert_eq!(user_1.item_ids, &[3]);
    assert_eq!(user_1.timestamps, &[2]);
    assert!(compressed.get_user(2).is_none());
    let flat = compressed.to_interactions();
    assert_eq!(
        flat.data(),
        &[
            Interaction::new(0, 1, 1),
            Interaction::new(0, 2, 5),
            Interaction::new(1, 3, 2)
        ]
    );
}

#[test]
fn compressed_keeps_ties_in_store_order_and_empty_users() {
    let mut store = Interactions::new(3, 10);
    store.push(Interaction::new(2, 7, 4));
    store.push(Interaction::new(2, 5, 4));
    store.push(Interaction::new(2, 9, 1));
    store.push(Interaction::new(0, 8, 4));
    let compressed = store.to_compressed();
    let user_1 = compressed.get_user(1).unwrap();
    assert!(user_1.is_empty());
    let user_2 = compressed.get_user(2).unwrap();
    assert_eq!(user_2.item_ids, &[9, 7, 5]);
    assert_eq!(user_2.timestamps, &[1, 4, 4]);
    let mut users = compressed.iter_users();
    let mut ids = Vec::new();
    while let Some(user) = users.next() {
        ids.push((user.user_id, user.len()));
    }
    assert_eq!(ids, vec![(0, 1), (1, 0), (2, 3)]);
}

#[test]
fn round_trip_keeps_multiset() {
    let mut store = Interactions::new(4, 4);
    let records = [(3, 1, 9), (0, 2, 3), (3, 0, 2), (1, 1, 1), (0, 2, 3), (2, 3, 0)];
    for &(u, i, t) in records.iter() {
        store.push(Interaction::new(u, i, t));
    }
    let back = store.to_compressed().to_interactions();
    assert_eq!(back.len(), store.len());
    let mut a: Vec<_> = store.data().iter().map(|x| (x.user_id(), x.item_id(), x.timestamp())).collect();
    let mut b: Vec<_> = back.data().iter().map(|x| (x.user_id(), x.item_id(), x.timestamp())).collect();
    a.sort();
    b.sort();
    assert_eq!(a, b);
    let compressed = store.to_compressed();
    let mut users = compressed.iter_users();
    while let Some(user) = users.next() {
        assert!(user.timestamps.windows(2).all(|w| w[0] <= w[1]));
    }
}

#[test]
fn chunk_lengths_front_load_the_remainder() {
    assert_eq!(chunk_lengths(&single_user(5), 3), vec![2, 3]);
    assert_eq!(chunk_lengths(&single_user(6), 3), vec![3, 3]);
    assert_eq!(chunk_lengths(&single_user(0), 3), Vec::<usize>::new());
    assert_eq!(chunk_lengths(&single_user(7), 3), vec![1, 3, 3]);
}

#[test]
fn minibatches_drop_the_remainder() {
    let mut store = Interactions::new(7, 7);
    for k in 0..7 {
        store.push(Interaction::new(k, 6 - k, 10 + k));
    }
    let triplets = store.to_triplet();
    assert_eq!(triplets.len(), 7);
    assert_eq!(triplets.shape(), (7, 7));
    let mut batches = triplets.iter_minibatch(3);
    let first = batches.next().unwrap();
    assert_eq!(first.user_ids, &[0, 1, 2]);
    assert_eq!(first.item_ids, &[6, 5, 4]);
    assert_eq!(first.timestamps, &[10, 11, 12]);
    let second = batches.next().unwrap();
    assert_eq!(second.len(), 3);
    assert_eq!(second.user_ids, &[3, 4, 5]);
    assert!(batches.next().is_none());
    assert!(batches.next().is_none());
}

#[test]
fn partitioned_minibatches_are_disjoint() {
    let mut store = Interactions::new(10, 10);
    for k in 0..10 {
        store.push(Interaction::new(k, k, k));
    }
    let triplets = store.to_triplet();
    let mut partitions = triplets.iter_minibatch_partitioned(2, 3);
    assert_eq!(partitions.len(), 3);
    let mut seen = Vec::new();
    for partition in partitions.iter_mut() {
        let mut count = 0;
        while let Some(batch) = partition.next() {
            assert_eq!(batch.len(), 2);
            seen.extend_from_slice(batch.user_ids);
            count += 1;
        }
        assert_eq!(count, 1);
    }
    assert_eq!(seen, vec![0, 1, 3, 4, 6, 7]);
}

#[test]
fn split_at_and_split_by_partition_the_store() {
    let mut store = Interactions::new(5, 5);
    for k in 0..5 {
        store.push(Interaction::new(k, k, k));
    }
    let (head, tail) = store.split_at(2);
    assert_eq!(head.len() + tail.len(), store.len());
    assert_eq!(head.data(), &store.data()[..2]);
    assert_eq!(tail.data(), &store.data()[2..]);
    assert_eq!(tail.shape(), (5, 5));
    let (even, odd) = store.split_by(|x| x.user_id() % 2 == 0);
    let users = |s: &Interactions| s.data().iter().map(|x| x.user_id()).collect::<Vec<_>>();
    assert_eq!(users(&even), vec![0, 2, 4]);
    assert_eq!(users(&odd), vec![1, 3]);
    assert_eq!(odd.num_users(), 5);
    assert_eq!(odd.num_items(), 5);
}

#[test]
fn user_based_split_follows_siphash() {
    let mut store = Interactions::new(30, 2);
    for round in 0..3 {
        for user in 0..30 {
            store.push(Interaction::new(user, round % 2, round));
        }
    }
    let (key_0, key_1) = (11_u64, 42_u64);
    let cutoff = 50_000_u64;
    let (train, test) = user_based_split(&store, key_0, key_1, cutoff);
    assert_eq!(train.len() + test.len(), store.len());
    let goes_to_train = |user: usize| {
        let mut hasher = SipHasher::new_with_keys(key_0, key_1);
        hasher.write_u64(user as u64);
        hasher.finish() % 100_000 > cutoff
    };
    for x in train.data() {
        assert!(goes_to_train(x.user_id()));
    }
    for x in test.data() {
        assert!(!goes_to_train(x.user_id()));
    }
    let train_users: HashSet<_> = train.data().iter().map(|x| x.user_id()).collect();
    let test_users: HashSet<_> = test.data().iter().map(|x| x.user_id()).collect();
    assert!(train_users.is_disjoint(&test_users));
    assert!(!train_users.is_empty());
    assert!(!test_users.is_empty());
}

#[test]
fn routing_compares_hash_remainder_with_cutoff() {
    assert!(hash_routes_to_train(150_001, 50_000));
    assert!(!hash_routes_to_train(150_000, 50_000));
    assert!(!hash_routes_to_train(49_999, 50_000));
}

#[test]
fn shuffle_applies_fisher_yates_draws() {
    let mut store = Interactions::new(4, 4);
    for k in 0..4 {
        store.push(Interaction::new(k, k, k));
    }
    store.shuffle(&[0, 0, 1, 0]);
    let users: Vec<_> = store.data().iter().map(|x| x.user_id()).collect();
    assert_eq!(users, vec![2, 3, 1, 0]);
}

#[test]
fn train_test_split_takes_test_from_the_front() {
    let mut store = Interactions::new(4, 4);
    for k in 0..4 {
        store.push(Interaction::new(k, k, k));
    }
    let (train, test) = train_test_split(&mut store, &[0, 1, 2, 3], 1);
    assert_eq!(test.data(), &[Interaction::new(0, 0, 0)]);
    assert_eq!(train.len(), 3);
    assert_eq!(train.shape(), (4, 4));
}

#[test]
fn from_vec_reports_errors() {
    assert_eq!(Interactions::from_vec(Vec::new()).unwrap_err(), DatasetError::EmptyDataset);
    assert_eq!(
        Interactions::from_vec(vec![Interaction::new(usize::MAX, 0, 0)]).unwrap_err(),
        DatasetError::IdOverflow
    );
    let store = Interactions::from_vec(vec![Interaction::new(3, 8, 0)]).unwrap();
    assert_eq!((store.num_users(), store.num_items()), (4, 9));
    assert!(!store.is_empty());
}

#[test]
fn compressed_from_parts_round_trips_and_rejects_bad_parts() {
    let store = Interactions::from_vec(vec![
        Interaction::new(0, 2, 5),
        Interaction::new(0, 1, 1),
        Interaction::new(1, 3, 2),
    ])
    .unwrap();
    let compressed = store.to_compressed();
    assert_eq!(compressed.user_pointers(), &[0, 2, 3]);
    assert_eq!(compressed.item_ids(), &[1, 2, 3]);
    assert_eq!(compressed.timestamps(), &[1, 5, 2]);
    let rebuilt = CompressedInteractions::from_parts(
        2,
        4,
        compressed.user_pointers().to_vec(),
        compressed.item_ids().to_vec(),
        compressed.timestamps().to_vec(),
    )
    .unwrap();
    assert_eq!(rebuilt.get_user(0).unwrap().item_ids, &[1, 2]);
    assert_eq!(rebuilt.shape(), (2, 4));
    // a user's timestamps out of order
    assert!(CompressedInteractions::from_parts(2, 4, vec![0, 2, 3], vec![1, 2, 3], vec![5, 1, 2]).is_none());
    // decreasing offsets
    assert!(CompressedInteractions::from_parts(2, 4, vec![0, 3, 2], vec![1, 2, 3], vec![1, 5, 2]).is_none());
    // offsets that do not end at the array length
    assert!(CompressedInteractions::from_parts(2, 4, vec![0, 2, 2], vec![1, 2, 3], vec![1, 5, 2]).is_none());
    // one offset too few
    assert!(CompressedInteractions::from_parts(2, 4, vec![0, 3], vec![1, 2, 3], vec![1, 5, 2]).is_none());
    // arrays of different lengths
    assert!(CompressedInteractions::from_parts(2, 4, vec![0, 2, 3], vec![1, 2, 3], vec![1, 5]).is_none());
}

#[test]
fn triplet_from_parts_checks_lengths() {
    let mut store = Interactions::new(3, 3);
    for k in 0..3 {
        store.push(Interaction::new(k, 2 - k, 7 * k));
    }
    let triplets = store.to_triplet();
    assert_eq!(triplets.user_ids(), &[0, 1, 2]);
    assert_eq!(triplets.item_ids(), &[2, 1, 0]);
    assert_eq!(triplets.timestamps(), &[0, 7, 14]);
    let rebuilt = TripletInteractions::from_parts(
        3,
        3,
        triplets.user_ids().to_vec(),
        triplets.item_ids().to_vec(),
        triplets.timestamps().to_vec(),
    )
    .unwrap();
    assert_eq!(rebuilt.len(), 3);
    assert!(TripletInteractions::from_parts(3, 3, vec![0, 1], vec![2, 1, 0], vec![0, 7, 14]).is_none());
}
