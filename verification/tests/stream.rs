use structio::json::stream::split::{Mode, Scanner};
use structio::json::Locate;
use structio::{AllowComments, Documents, Error, ErrorCode, KeyMap, Options};
use structio::keymap::HashKind;

/// Feed `input` to `docs` at most `chunk` bytes at a time, and read every
/// value it frames as a `Vec<u64>` wrapped or a bare `u64`, as `read` says.
fn drain<O: Options, T, F>(mut docs: Documents<O>, input: &[u8], chunk: usize, read: F) -> Vec<Result<T, Error>>
where
    F: Fn(&Documents<O>, usize, usize) -> Result<T, Error>,
{
    let mut fed = 0usize;
    let mut out = Vec::new();
    loop {
        match docs.locate() {
            Ok(Locate::Item { start, end }) => out.push(read(&docs, start, end)),
            Ok(Locate::End) => break,
            Ok(Locate::Need(n)) => {
                assert!(n >= 1);
                let take = n.min(chunk).min(input.len() - fed);
                if take == 0 {
                    docs.finish_input();
                } else {
                    docs.push(&input[fed..fed + take]);
                    fed += take;
                }
            }
            Err(e) => {
                out.push(Err(e));
                break;
            }
        }
    }
    out
}

fn numbers<O: Options>(docs: Documents<O>, input: &[u8], chunk: usize) -> Vec<Result<u64, Error>> {
    drain(docs, input, chunk, |d, s, e| d.next_value::<u64>(s, e))
}

fn ok(v: &[u64]) -> Vec<Result<u64, Error>> {
    v.iter().map(|&x| Ok(x)).collect()
}

#[test]
fn lines_split_at_newlines_whatever_the_chunks() {
    for chunk in [1, 2, 3, 7, 100] {
        let got = numbers(Documents::lines(), b"1\n22\n\n333\n  \n4", chunk);
        assert_eq!(got, ok(&[1, 22, 333, 4]), "chunk {chunk}");
    }
}

#[test]
fn values_follow_one_another() {
    for chunk in [1, 4, 64] {
        let got = drain(Documents::values(), b"[1][2,3] [4]\n[]", chunk, |d, s, e| d.next_value::<Vec<u64>>(s, e));
        let want: Vec<Result<Vec<u64>, Error>> = vec![Ok(vec![1]), Ok(vec![2, 3]), Ok(vec![4]), Ok(vec![])];
        assert_eq!(got, want, "chunk {chunk}");
    }
}

#[test]
fn array_yields_its_elements() {
    for chunk in [1, 5, 64] {
        assert_eq!(numbers(Documents::array(), b" [1, 2 ,3] ", chunk), ok(&[1, 2, 3]), "chunk {chunk}");
    }
    assert_eq!(numbers(Documents::array(), b"[]", 1), ok(&[]));
}

#[test]
fn blank_streams_are_empty() {
    for mode in [Mode::Lines, Mode::Values, Mode::Array] {
        assert_eq!(numbers(Documents::new(mode), b"  \n\t \r\n ", 3), ok(&[]));
        assert_eq!(numbers(Documents::new(mode), b"", 3), ok(&[]));
    }
}

#[test]
fn a_value_cut_short_is_an_unexpected_end() {
    let got = numbers(Documents::values(), b"1 [2,", 2);
    assert_eq!(got.len(), 2);
    assert_eq!(got[0], Ok(1));
    assert_eq!(got[1].as_ref().unwrap_err().code, ErrorCode::UnexpectedEnd);
}

#[test]
fn a_value_too_large_fails_and_ends_the_stream() {
    let docs = Documents::lines().max_value(4);
    let got = numbers(docs, b"12\n123456789\n5", 2);
    assert_eq!(got[0], Ok(12));
    assert_eq!(got[1].as_ref().unwrap_err().code, ErrorCode::DocumentTooLarge);
    assert_eq!(got.len(), 2);
}

#[test]
fn failure_is_reported_once() {
    let mut docs = Documents::values();
    docs.push(b"] 1");
    docs.finish_input();
    assert!(docs.locate().is_err());
    assert_eq!(docs.locate(), Ok(Locate::End));
    assert!(docs.into_parts().is_empty());
}

#[test]
fn comments_are_whitespace_when_allowed() {
    let docs = Documents::lines().with_options::<AllowComments>();
    assert_eq!(numbers(docs, b"1 // one\n2 /* two */\n// only a comment\n", 3), ok(&[1, 2]));
}

#[test]
fn parse_errors_point_into_the_stream() {
    let got = numbers(Documents::lines(), b"1\n\"x\"\n", 64);
    assert_eq!(got[0], Ok(1));
    let e = got[1].as_ref().unwrap_err();
    assert_eq!(e.code, ErrorCode::ExpectedNumber);
    assert_eq!(e.index, 2);
}

#[test]
fn offsets_and_unread_bytes() {
    let mut docs = Documents::values();
    docs.push(b"[1] [2");
    match docs.locate() {
        Ok(Locate::Item { start, end }) => assert_eq!(&docs.next_value::<Vec<u64>>(start, end).unwrap(), &vec![1]),
        other => panic!("{other:?}"),
    }
    assert!(matches!(docs.locate(), Ok(Locate::Need(_))));
    assert_eq!(docs.offset(), 4);
    assert_eq!(docs.into_parts(), b"[2".to_vec());
}

#[test]
fn scanner_resumes_where_it_stopped() {
    let whole = br#"{"a":[1,"]}"],"b":2} tail"#;
    let mut once = Scanner::new();
    let end = once.advance(whole, false).unwrap().unwrap();
    assert_eq!(end, 20);
    for cut in 0..end {
        let mut sc = Scanner::new();
        assert_eq!(sc.advance(&whole[..cut], false), Ok(None), "cut {cut}");
        assert_eq!(sc.advance(whole, false), Ok(Some(end)), "cut {cut}");
    }
}

#[test]
fn scanner_refuses_a_stray_close() {
    let mut sc = Scanner::new();
    assert!(sc.advance(b"]", false).is_err());
}

#[test]
fn keymaps_find_every_key() {
    let sets: Vec<Vec<&'static str>> = vec![
        vec![],
        vec!["id"],
        vec!["a", "b", "c"],
        vec!["id", "name", "value", "tags"],
        vec!["alpha", "beta", "gamma", "delta", "epsilon", "zeta", "eta", "theta"],
        vec!["x", "xy", "xyz", "wxyz", "vwxyz", "uvwxyz"],
        vec!["user_id", "user_name", "user_mail", "user_role", "user_tags", "user_home"],
        (0..40).map(|i| &*Box::leak(format!("field_{i}").into_boxed_str())).collect(),
    ];
    for keys in &sets {
        let map = KeyMap::build(keys);
        assert_eq!(map.n as usize, keys.len());
        for (i, k) in keys.iter().enumerate() {
            let buf = format!("{k}\":1}}");
            assert_eq!(map.lookup(keys, buf.as_bytes()), i, "{keys:?} {k}");
            assert_eq!(map.lookup_sized(keys, k.as_bytes()), i, "{keys:?} {k}");
        }
        let miss = map.lookup(keys, b"not_a_key_at_all\":1}");
        assert!(miss == keys.len() || keys[miss] != "not_a_key_at_all");
    }
}

#[test]
fn keymap_takes_the_cheapest_rung() {
    let keys: [&str; 3] = ["a", "b", "c"];
    let m = KeyMap::build(&keys);
    assert!(m.kind == HashKind::MinusMod4);
    assert_eq!((m.seed, m.n, m.min_len, m.max_len), (97, 3, 1, 1));
    assert_eq!(m.lookup(&keys, b"a\""), 0);
    assert_eq!(m.lookup(&keys, b"b\""), 1);
    assert_eq!(m.lookup(&keys, b"c\""), 2);
    assert_eq!(m.lookup_sized(&keys, b"c"), 2);
    assert_eq!(m.lookup_sized(&keys, b"d"), 3);
    let two = KeyMap::build(&["port", "debug"]);
    assert!(two.kind == HashKind::UniqueIndexTwo);
    assert_eq!((two.min_len, two.max_len), (4, 5));
    assert!(KeyMap::build(&[]).kind == HashKind::Empty);
    assert!(KeyMap::build(&["only"]).kind == HashKind::SingleElement);
}
