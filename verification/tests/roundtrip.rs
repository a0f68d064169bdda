use std::collections::{HashMap, HashSet};

use rand::{distributions::Distribution, distributions::Standard, random, thread_rng, Rng};
use transcode::{ByteSource, Transcode};

const TEST_SIZE: usize = 1 << 16;

fn round_trip_values<T: Transcode + PartialEq + std::fmt::Debug>(values: Vec<T>) {
    let mut data: Vec<u8> = vec![];
    for value in values.iter() {
        value.to_bytes(&mut data).unwrap();
    }
    let mut new_values: Vec<T> = Vec::with_capacity(values.len());
    let mut src = ByteSource::new(data);
    for _ in 0..values.len() {
        new_values.push(T::from_bytes(&mut src).unwrap());
    }
    assert_eq!(values, new_values);
}

fn random_values<T>() -> Vec<T>
where
    Standard: Distribution<T>,
{
    let mut values: Vec<T> = Vec::with_capacity(TEST_SIZE);
    for _ in 0..TEST_SIZE {
        values.push(random());
    }
    values
}

#[test]
fn test_u8() {
    round_trip_values(random_values::<u8>());
}

#[test]
fn test_u16() {
    round_trip_values(random_values::<u16>());
}

#[test]
fn test_u32() {
    round_trip_values(random_values::<u32>());
}

#[test]
fn test_u64() {
    round_trip_values(random_values::<u64>());
}

#[test]
fn test_u128() {
    round_trip_values(random_values::<u128>());
}

#[test]
fn test_i8() {
    round_trip_values(random_values::<i8>());
}

#[test]
fn test_i16() {
    round_trip_values(random_values::<i16>());
}

#[test]
fn test_i32() {
    round_trip_values(random_values::<i32>());
}

#[test]
fn test_i64() {
    round_trip_values(random_values::<i64>());
}

#[test]
fn test_i128() {
    round_trip_values(random_values::<i128>());
}

#[test]
fn test_vec() {
    let mut values: Vec<Vec<u64>> = Vec::with_capacity(TEST_SIZE);
    let mut rng = thread_rng();
    for _ in 0..TEST_SIZE {
        let range = rng.gen_range(0..256);
        values.push(Standard.sample_iter(&mut rng).take(range).collect());
    }
    round_trip_values(values);
}

#[test]
fn test_hashset() {
    let mut values: Vec<HashSet<u64>> = Vec::with_capacity(TEST_SIZE);
    let mut rng = thread_rng();
    for _ in 0..TEST_SIZE {
        let range = rng.gen_range(0..256);
        values.push(Standard.sample_iter(&mut rng).take(range).collect());
    }
    round_trip_values(values);
}

#[test]
fn test_hashmap() {
    let mut values: Vec<HashMap<u64, u64>> = Vec::with_capacity(TEST_SIZE);
    let mut rng = thread_rng();
    for _ in 0..TEST_SIZE {
        let range = rng.gen_range(0..256);
        values.push(Standard.sample_iter(&mut rng).take(range).collect());
    }
    round_trip_values(values);
}
