use lru::LruCache;

/// The cache as a plain list of entries, least recently used first.
struct ListModel {
    capacity: usize,
    entries: Vec<(u8, u32)>,
}

impl ListModel {
    fn get(&mut self, key: u8) -> Option<u32> {
        let at = self.entries.iter().position(|e| e.0 == key)?;
        let entry = self.entries.remove(at);
        self.entries.push(entry);
        Some(entry.1)
    }

    fn put(&mut self, key: u8, value: u32) {
        if let Some(at) = self.entries.iter().position(|e| e.0 == key) {
            self.entries.remove(at);
        } else if self.entries.len() == self.capacity {
            self.entries.remove(0);
        }
        self.entries.push((key, value));
    }

    fn delete(&mut self, key: u8) {
        self.entries.retain(|e| e.0 != key);
    }

    fn keys(&self) -> Vec<u8> {
        self.entries.iter().map(|e| e.0).collect()
    }
}

fn next(state: &mut u64) -> u64 {
    *state = state.wrapping_mul(6364136223846793005).wrapping_add(1442695040888963407);
    *state >> 33
}

fn run(capacity: usize, key_range: u64, steps: usize, seed: u64) {
    let mut cache = LruCache::new(capacity);
    let mut model = ListModel { capacity, entries: Vec::new() };
    let mut state = seed;
    for step in 0..steps {
        let key = (next(&mut state) % key_range) as u8;
        match next(&mut state) % 16 {
            0..=5 => assert_eq!(cache.get(key), model.get(key)),
            6..=11 => {
                cache.put(key, step as u32);
                model.put(key, step as u32);
            }
            12..=14 => {
                cache.delete(key);
                model.delete(key);
            }
            _ => {
                if next(&mut state) % 8 == 0 {
                    cache.reset();
                    model.entries.clear();
                }
            }
        }
        assert_eq!(cache.keys(), model.keys());
        assert_eq!(cache.size(), model.entries.len());
        assert!(cache.size() <= capacity);
    }
    for (key, value) in model.entries.clone() {
        assert_eq!(cache.get(key), Some(value));
    }
}

#[test]
fn agrees_with_list_model_small_capacity() {
    run(1, 4, 2000, 1);
    run(2, 5, 2000, 2);
    run(3, 6, 2000, 3);
}

#[test]
fn agrees_with_list_model_more_keys_than_room() {
    run(8, 40, 5000, 4);
    run(16, 200, 5000, 5);
}

#[test]
fn agrees_with_list_model_more_room_than_keys() {
    run(32, 10, 5000, 6);
}
