// End-to-end scenarios over the engine: string and binary round trips,
// LRU eviction, TTL expiry, log replay, JSON with indexes, and pub/sub.
use kvcache::store::Store;

fn b(s: &str) -> Vec<u8> {
    s.as_bytes().to_vec()
}

fn le32(n: u32) -> Vec<u8> {
    n.to_le_bytes().to_vec()
}

fn le64(n: u64) -> Vec<u8> {
    n.to_le_bytes().to_vec()
}

fn items_frame(items: &[&[u8]]) -> Vec<u8> {
    let mut out = le32(items.len() as u32);
    for it in items {
        out.extend_from_slice(&le32(it.len() as u32));
        out.extend_from_slice(it);
    }
    out
}

fn notif_frame(kind: u8, key: &[u8], at: u64) -> Vec<u8> {
    let mut out = vec![kind];
    out.extend_from_slice(&le32(key.len() as u32));
    out.extend_from_slice(key);
    out.extend_from_slice(&le64(at));
    out
}

fn pubsub_frame(chan: &[u8], payload: &[u8]) -> Vec<u8> {
    let mut out = le32(chan.len() as u32);
    out.extend_from_slice(chan);
    out.extend_from_slice(&le32(payload.len() as u32));
    out.extend_from_slice(payload);
    out
}

#[test]
fn string_round_trip() {
    let mut s = Store::new(100);
    s.set(b("k"), b("hello"), 0);
    assert_eq!(s.get(&b("k"), 0), Some(b("hello")));
    assert!(s.remove(&b("k"), 0));
    assert_eq!(s.get(&b("k"), 0), None);
}

#[test]
fn lru_eviction_keeps_touched_keys() {
    let mut s = Store::new(2);
    s.set(b("a"), b("1"), 0);
    s.set(b("b"), b("2"), 1);
    assert_eq!(s.get(&b("a"), 2), Some(b("1")));
    s.set(b("c"), b("3"), 3);
    assert_eq!(s.get(&b("a"), 4), Some(b("1")));
    assert_eq!(s.get(&b("c"), 5), Some(b("3")));
    assert_eq!(s.get(&b("b"), 6), None);
    assert_eq!(s.notify_poll(), Some(notif_frame(2, b"b", 3)));
    assert_eq!(s.notify_poll(), None);
}

#[test]
fn ttl_expires_with_notification() {
    let mut s = Store::new(100);
    s.set_with_ttl(b("k"), b("v"), 50, 1000);
    let t = s.ttl(&b("k"), 1000);
    assert!(0 < t && t <= 50);
    assert_eq!(s.get(&b("k"), 1100), None);
    assert_eq!(s.notify_poll(), Some(notif_frame(1, b"k", 1100)));
}

#[test]
fn ttl_codes() {
    let mut s = Store::new(100);
    assert_eq!(s.ttl(&b("none"), 0), -2);
    s.set(b("k"), b("v"), 0);
    assert_eq!(s.ttl(&b("k"), 0), -1);
    assert!(s.expire(&b("k"), 10, 0));
    assert_eq!(s.ttl(&b("k"), 3), 7);
    assert!(!s.expire(&b("gone"), 10, 0));
}

#[test]
fn aof_replay_rebuilds_state() {
    let mut s = Store::new(100);
    s.aof_enable();
    s.set(b("x"), b("1"), 0);
    s.hset(&b("h"), &b("f"), &b("2"), 0);
    s.lpush(&b("L"), &b("a"), 0);
    s.lpush(&b("L"), &b("b"), 0);
    let log = s.aof_disable().unwrap();
    let mut s2 = Store::new(100);
    s2.aof_load(&log, 0);
    assert_eq!(s2.get(&b("x"), 0), Some(b("1")));
    assert_eq!(s2.hget(&b("h"), &b("f"), 0), Some(b("2")));
    assert_eq!(s2.lrange(&b("L"), 0, -1, 0), items_frame(&[b"b", b"a"]));
}

#[test]
fn aof_replay_tolerates_truncation() {
    let mut s = Store::new(100);
    s.aof_enable();
    s.set(b("x"), b("1"), 0);
    s.set(b("y"), b("2"), 0);
    let mut log = s.aof_disable().unwrap();
    log.truncate(log.len() - 3);
    let mut s2 = Store::new(100);
    s2.aof_load(&log, 0);
    assert_eq!(s2.get(&b("x"), 0), Some(b("1")));
    assert_eq!(s2.get(&b("y"), 0), None);
}

#[test]
fn json_index_find() {
    let mut s = Store::new(100);
    s.set(b("u1"), b("{\"age\":30}"), 0);
    s.set(b("u2"), b("{\"age\":25}"), 0);
    s.create_numeric_index(b("age"));
    assert_eq!(s.find(&b("age >= 26")), items_frame(&[b"u1"]));
    assert!(s.json_set(&b("u1"), &b("age"), &b("40"), 0));
    assert_eq!(s.find(&b("age >= 26")), items_frame(&[b"u1"]));
    assert_eq!(s.find(&b("age == 25")), items_frame(&[b"u2"]));
}

#[test]
fn find_without_index_scans() {
    let mut s = Store::new(100);
    s.set(b("u1"), b("{\"n\":7}"), 0);
    s.set(b("u2"), b("{\"n\":9}"), 0);
    s.set(b("u3"), b("not json"), 0);
    let r = s.find(&b("n > 8"));
    assert_eq!(r, items_frame(&[b"u2"]));
}

#[test]
fn find_non_integer_literal_is_empty() {
    let mut s = Store::new(100);
    s.set(b("u1"), b("{\"n\":7}"), 0);
    assert_eq!(s.find(&b("n > x")), items_frame(&[]));
    assert_eq!(s.find(&b("n >")), Vec::<u8>::new());
}

#[test]
fn pubsub_fifo_two_subscribers() {
    let mut s = Store::new(100);
    let id1 = s.subscribe(b("c"));
    let id2 = s.subscribe(b("c"));
    assert!(id1 != 0 && id2 != 0 && id1 != id2);
    assert_eq!(s.publish(&b("c"), &b("m")), 2);
    assert_eq!(s.poll(id1), Some(pubsub_frame(b"c", b"m")));
    assert_eq!(s.poll(id2), Some(pubsub_frame(b"c", b"m")));
    assert_eq!(s.poll(id1), None);
}

#[test]
fn pubsub_order_and_unsubscribe() {
    let mut s = Store::new(100);
    let id = s.subscribe(b("c"));
    assert_eq!(s.publish(&b("c"), &b("m1")), 1);
    assert_eq!(s.publish(&b("c"), &b("m2")), 1);
    assert_eq!(s.poll(id), Some(pubsub_frame(b"c", b"m1")));
    assert_eq!(s.poll(id), Some(pubsub_frame(b"c", b"m2")));
    assert!(s.unsubscribe(id));
    assert_eq!(s.publish(&b("c"), &b("m3")), 0);
    assert_eq!(s.poll(id), None);
    assert_eq!(s.subscribe(b("")), 0);
}

#[test]
fn binary_namespace_round_trip() {
    let mut s = Store::new(100);
    let k = vec![0u8, 255, 7];
    s.set_b(k.clone(), b("payload"), 0);
    assert_eq!(s.get_b(&k, 0), Some(b("payload")));
    let mut buf = vec![0u8; 7];
    assert_eq!(s.get_into_buffer_b(&k, &mut buf, 0), 7);
    assert_eq!(buf, b("payload"));
    assert!(s.remove_b(&k, 0));
    assert_eq!(s.get_b(&k, 0), None);
}

#[test]
fn get_into_buffer_codes() {
    let mut s = Store::new(100);
    let mut buf = vec![0u8; 2];
    assert_eq!(s.get_into_buffer(&b("k"), &mut buf, 0), -1);
    s.set(b("k"), b("hello"), 0);
    assert_eq!(s.get_into_buffer(&b("k"), &mut buf, 0), -5);
    let mut buf = vec![0u8; 8];
    assert_eq!(s.get_into_buffer(&b("k"), &mut buf, 0), 5);
    assert_eq!(&buf[..5], b"hello");
    s.set(b("e"), b(""), 0);
    assert_eq!(s.get_into_buffer(&b("e"), &mut buf, 0), 0);
}

#[test]
fn binary_eviction_notifies_hex_name() {
    let mut s = Store::new(1);
    s.set_b(vec![0xab, 0x01], b("x"), 0);
    s.set_b(vec![0x02], b("y"), 5);
    assert_eq!(s.notify_poll(), Some(notif_frame(2, b"b:ab01", 5)));
}

#[test]
fn hash_fields() {
    let mut s = Store::new(100);
    s.hset(&b("h"), &b("f1"), &b("v1"), 0);
    s.hset(&b("h"), &b("f2"), &b("v2"), 0);
    s.hset(&b("h"), &b("f1"), &b("v3"), 0);
    assert_eq!(s.hget(&b("h"), &b("f1"), 0), Some(b("v3")));
    assert_eq!(s.hget(&b("h"), &b("f2"), 0), Some(b("v2")));
    assert_eq!(s.hget(&b("h"), &b("nope"), 0), None);
    let mut expect = le32(2);
    for (f, v) in [(b"f1".as_slice(), b"v3".as_slice()), (b"f2", b"v2")] {
        expect.extend_from_slice(&le32(f.len() as u32));
        expect.extend_from_slice(f);
        expect.extend_from_slice(&le32(v.len() as u32));
        expect.extend_from_slice(v);
    }
    assert_eq!(s.hgetall(&b("h"), 0), expect);
}

#[test]
fn list_push_pop_range() {
    let mut s = Store::new(100);
    s.lpush(&b("L"), &b("a"), 0);
    s.lpush(&b("L"), &b("b"), 0);
    s.lpush(&b("L"), &b("c"), 0);
    assert_eq!(s.lrange(&b("L"), 0, -1, 0), items_frame(&[b"c", b"b", b"a"]));
    assert_eq!(s.lrange(&b("L"), 1, 1, 0), items_frame(&[b"b"]));
    assert_eq!(s.rpop(&b("L"), 0), Some(b("a")));
    assert_eq!(s.lrange(&b("L"), 0, -1, 0), items_frame(&[b"c", b"b"]));
    assert_eq!(s.rpop(&b("missing"), 0), None);
}

#[test]
fn set_members() {
    let mut s = Store::new(100);
    assert!(s.sadd(&b("s"), &b("a"), 0));
    assert!(!s.sadd(&b("s"), &b("a"), 0));
    assert!(s.sadd(&b("s"), &b("b"), 0));
    assert!(s.sismember(&b("s"), &b("a"), 0));
    assert!(!s.sismember(&b("s"), &b("z"), 0));
}

#[test]
fn sorted_set_orders_by_score() {
    let mut s = Store::new(100);
    s.zadd(&b("z"), 30, &b("mid"), 0);
    s.zadd(&b("z"), 10, &b("low"), 0);
    s.zadd(&b("z"), 50, &b("high"), 0);
    assert_eq!(
        s.zrange(&b("z"), 0, -1, 0),
        items_frame(&[b"low", b"mid", b"high"])
    );
    s.zadd(&b("z"), 1, &b("high"), 0);
    assert_eq!(
        s.zrange(&b("z"), 0, -1, 0),
        items_frame(&[b"high", b"low", b"mid"])
    );
}

#[test]
fn stream_ids_increase() {
    let mut s = Store::new(100);
    let i1 = s.xadd(&b("st"), &b("p1"), 0);
    let i2 = s.xadd(&b("st"), &b("p2"), 0);
    assert!(i1 >= 1 && i2 > i1);
    let mut expect = le32(2);
    expect.extend_from_slice(&le64(i1));
    expect.extend_from_slice(&le32(2));
    expect.extend_from_slice(b"p1");
    expect.extend_from_slice(&le64(i2));
    expect.extend_from_slice(&le32(2));
    expect.extend_from_slice(b"p2");
    assert_eq!(s.xrange(&b("st"), 0, u64::MAX, 0), expect);
    assert_eq!(s.xrange(&b("st"), i2, i2, 0)[0..4], le32(1)[..]);
}

#[test]
fn json_get_paths() {
    let mut s = Store::new(100);
    s.set(b("d"), b("{\"a\":{\"b\":[1,2,3]},\"s\":\"txt\"}"), 0);
    assert_eq!(s.json_get(&b("d"), &b("a.b[1]"), 0), Some(b("2")));
    assert_eq!(s.json_get(&b("d"), &b("$.s"), 0), Some(b("\"txt\"")));
    assert_eq!(s.json_get(&b("d"), &b("a.missing"), 0), None);
    assert_eq!(s.json_get(&b("d"), &b("a..b"), 0), None);
}

#[test]
fn json_set_autovivifies() {
    let mut s = Store::new(100);
    assert!(s.json_set(&b("d"), &b("a.b[2]"), &b("7"), 0));
    assert_eq!(
        s.get(&b("d"), 0),
        Some(b("{\"a\":{\"b\":[null,null,7]}}"))
    );
    assert!(!s.json_set(&b("d"), &b("a..b"), &b("7"), 0));
    assert!(!s.json_set(&b("d"), &b("a"), &b("not json"), 0));
}

#[test]
fn eval_commands() {
    let mut s = Store::new(100);
    assert_eq!(s.eval(&b("SET k hello world  "), 0), b(""));
    assert_eq!(s.eval(&b("get k"), 0), b("hello world"));
    assert_eq!(s.eval(&b("DEL k"), 0), b("1"));
    assert_eq!(s.eval(&b("DEL k"), 0), b("0"));
    assert_eq!(s.eval(&b("JSON.SET d a 5"), 0), b(""));
    assert_eq!(s.eval(&b("JSON.GET d a"), 0), b("5"));
    assert_eq!(s.eval(&b("NOPE x"), 0), b(""));
    assert_eq!(s.eval(&b("GET"), 0), b(""));
}

#[test]
fn reaper_sweeps_both_namespaces() {
    let mut s = Store::new(100);
    s.set_with_ttl(b("a"), b("1"), 10, 0);
    s.set(b("b"), b("2"), 0);
    s.set_b(vec![0x01], b("3"), 0);
    s.reap_expired(5);
    assert_eq!(s.notify_poll(), None);
    s.reap_expired(20);
    assert_eq!(s.notify_poll(), Some(notif_frame(1, b"a", 20)));
    assert_eq!(s.notify_poll(), None);
    assert_eq!(s.get(&b("b"), 21), Some(b("2")));
    assert_eq!(s.length(), 2);
}

#[test]
fn resize_evicts_down() {
    let mut s = Store::new(10);
    s.set(b("a"), b("1"), 0);
    s.set(b("b"), b("2"), 1);
    s.set(b("c"), b("3"), 2);
    s.set_max_items(1, 9);
    assert_eq!(s.get_max_items(), 1);
    assert_eq!(s.length(), 1);
    assert_eq!(s.get(&b("c"), 10), Some(b("3")));
    assert_eq!(s.notify_poll(), Some(notif_frame(2, b"a", 9)));
    assert_eq!(s.notify_poll(), Some(notif_frame(2, b"b", 9)));
}

#[test]
fn clear_all_empties_and_replays() {
    let mut s = Store::new(100);
    s.aof_enable();
    s.set(b("a"), b("1"), 0);
    s.clear_all();
    s.set(b("b"), b("2"), 0);
    let log = s.aof_disable().unwrap();
    assert_eq!(s.length(), 1);
    let mut s2 = Store::new(100);
    s2.aof_load(&log, 0);
    assert_eq!(s2.get(&b("a"), 0), None);
    assert_eq!(s2.get(&b("b"), 0), Some(b("2")));
}

#[test]
fn notifications_clear() {
    let mut s = Store::new(1);
    s.set(b("a"), b("1"), 0);
    s.set(b("b"), b("2"), 1);
    s.notify_clear();
    assert_eq!(s.notify_poll(), None);
}

#[test]
fn wrong_variant_reads_as_missing() {
    let mut s = Store::new(100);
    s.lpush(&b("L"), &b("a"), 0);
    assert_eq!(s.get(&b("L"), 0), None);
    assert_eq!(s.hget(&b("L"), &b("f"), 0), None);
    assert!(!s.sismember(&b("L"), &b("a"), 0));
    s.set(b("L"), b("now bytes"), 0);
    assert_eq!(s.get(&b("L"), 0), Some(b("now bytes")));
}

#[test]
fn aof_drain_keeps_logging() {
    let mut s = Store::new(100);
    assert_eq!(s.aof_drain(), None);
    s.aof_enable();
    s.set(b("a"), b("1"), 0);
    let first = s.aof_drain().unwrap();
    assert!(!first.is_empty());
    let second = s.aof_drain().unwrap();
    assert!(second.is_empty());
    s.set(b("b"), b("2"), 0);
    let third = s.aof_drain().unwrap();
    assert!(!third.is_empty());
}

#[test]
fn aof_replays_every_record_kind() {
    let mut s = Store::new(100);
    s.aof_enable();
    s.set(b("x"), b("1"), 0);
    s.set_with_ttl(b("t"), b("v"), 1000, 0);
    s.hset(&b("h"), &b("f"), &b("1"), 0);
    s.lpush(&b("L"), &b("a"), 0);
    s.sadd(&b("s"), &b("m"), 0);
    s.zadd(&b("z"), 4, &b("mem"), 0);
    s.xadd(&b("st"), &b("p"), 0);
    s.set_b(vec![9], b("bin"), 0);
    s.remove(&b("x"), 0);
    let k2 = vec![9u8];
    s.remove_b(&k2, 0);
    let log = s.aof_disable().unwrap();
    let mut s2 = Store::new(100);
    s2.aof_load(&log, 7);
    assert_eq!(s2.get(&b("x"), 7), None);
    assert_eq!(s2.get_b(&k2, 7), None);
    assert_eq!(s2.get(&b("t"), 7), Some(b("v")));
    assert!(s2.ttl(&b("t"), 7) > 0);
    assert_eq!(s2.hget(&b("h"), &b("f"), 7), Some(b("1")));
    assert!(s2.sismember(&b("s"), &b("m"), 7));
    assert_eq!(s2.zrange(&b("z"), 0, -1, 7), items_frame(&[b"mem"]));
    assert_eq!(s2.rpop(&b("L"), 7), Some(b("a")));
}

#[test]
fn stream_ids_reserved_past_replayed_ones() {
    let mut s = Store::new(100);
    s.aof_enable();
    let i1 = s.xadd(&b("st"), &b("p1"), 0);
    let i2 = s.xadd(&b("st"), &b("p2"), 0);
    let log = s.aof_disable().unwrap();
    let mut s2 = Store::new(100);
    s2.aof_load(&log, 0);
    let i3 = s2.xadd(&b("st"), &b("p3"), 0);
    assert!(i3 > i2 && i2 > i1);
}

#[test]
fn json_numbers_are_strict_integers() {
    let mut s = Store::new(100);
    s.set(b("a"), b("{\"n\":2.5}"), 0);
    s.set(b("b"), b("{\"n\":007}"), 0);
    s.set(b("c"), b("{\"n\":99999999999999999999999}"), 0);
    s.set(b("d"), b("{\"n\":-3}"), 0);
    s.create_numeric_index(b("n"));
    assert_eq!(s.find(&b("n <= 0")), items_frame(&[b"d"]));
    assert_eq!(s.json_get(&b("a"), &b("n"), 0), None);
    assert_eq!(s.json_get(&b("d"), &b("n"), 0), Some(b("-3")));
}

#[test]
fn expire_refreshes_and_set_clears_deadline() {
    let mut s = Store::new(100);
    s.set_with_ttl(b("k"), b("v"), 10, 0);
    s.set(b("k"), b("v2"), 5);
    assert_eq!(s.ttl(&b("k"), 5), -1);
    assert_eq!(s.get(&b("k"), 1000), Some(b("v2")));
}
