use kvs::kv::KvStore;
use kvs::log_files::{log_path, parse_gen, sort_gen_list};
use kvs::protocol::{respond, Request, Response};

#[test]
fn protocol_scenario() {
    let mut store = KvStore::open(Vec::new()).unwrap();
    let r = respond(&mut store, Request::Put { key: "a".to_owned(), value: "1".to_owned() });
    assert_eq!(r, Response::Done);
    let r = respond(&mut store, Request::Get { key: "a".to_owned() });
    assert_eq!(r, Response::Value(Some("1".to_owned())));
    let r = respond(&mut store, Request::Remove { key: "a".to_owned() });
    assert_eq!(r, Response::Done);
    let r = respond(&mut store, Request::Get { key: "a".to_owned() });
    assert_eq!(r, Response::Value(None));
    let r = respond(&mut store, Request::Remove { key: "a".to_owned() });
    assert_eq!(r, Response::Failure("Key not found".to_owned()));
}

#[test]
fn parse_generation_names() {
    assert_eq!(parse_gen("12.log"), Some(12));
    assert_eq!(parse_gen("0.log"), Some(0));
    assert_eq!(parse_gen("18446744073709551615.log"), Some(u64::MAX));
    assert_eq!(parse_gen("18446744073709551616.log"), None);
    assert_eq!(parse_gen("012.log"), None);
    assert_eq!(parse_gen(".log"), None);
    assert_eq!(parse_gen("1a.log"), None);
    assert_eq!(parse_gen("12.txt"), None);
    assert_eq!(parse_gen("12.log.bak"), None);
}

#[test]
fn log_path_names_generation_file() {
    assert_eq!(log_path("/tmp/db", 7), "/tmp/db/7.log");
    assert_eq!(log_path("d", 1234567890), "d/1234567890.log");
    assert_eq!(log_path("d", 0), "d/0.log");
}

#[test]
fn generations_sorted_numerically() {
    let names: Vec<String> = ["10.log", "9.log", "notes.txt", "2.log", "10.log", "x.log", "100.log"]
        .iter()
        .map(|s| s.to_string())
        .collect();
    assert_eq!(sort_gen_list(&names), vec![2, 9, 10, 100]);
    assert_eq!(sort_gen_list(&Vec::new()), Vec::<u64>::new());
}

#[test]
fn log_path_and_parse_agree() {
    for g in [0u64, 1, 9, 10, 99, 12345, u64::MAX] {
        let path = log_path("dir", g);
        let name = path.strip_prefix("dir/").unwrap();
        assert_eq!(parse_gen(name), Some(g));
    }
}
