use protean::patch::{Patch, PatchValue};
use protean::record::{Record, Slot};
use protean::value::FieldValue;
use protean::wire::{decode, encode};

fn lists(alphabet: i64, longest: usize) -> Vec<Vec<i64>> {
    let mut all: Vec<Vec<i64>> = vec![vec![]];
    let mut last: Vec<Vec<i64>> = vec![vec![]];
    for _ in 0..longest {
        let mut next = Vec::new();
        for l in &last {
            for c in 0..alphabet {
                let mut m = l.clone();
                m.push(c);
                next.push(m);
            }
        }
        all.extend(next.iter().cloned());
        last = next;
    }
    all
}

fn list_record(items: &[i64]) -> Record {
    let mut r = Record::new("L".to_string());
    r.push(Slot::value(
        "items".to_string(),
        FieldValue::List(items.iter().map(|i| FieldValue::Int(*i)).collect()),
    ))
    .unwrap();
    r
}

fn dict_record(keys: &[i64]) -> Record {
    let mut r = Record::new("D".to_string());
    let entries = keys
        .iter()
        .enumerate()
        .map(|(at, k)| (format!("k{}", k % 3), FieldValue::Int(*k * 10 + at as i64)))
        .collect();
    r.push(Slot::value("m".to_string(), FieldValue::Dict(entries))).unwrap();
    r
}

fn steps_of(p: &Patch) -> Option<usize> {
    if p.is_empty() {
        return Some(0);
    }
    match p.entry(0).payload() {
        PatchValue::Patch(script) => Some(script.len()),
        PatchValue::Value(_) => None,
    }
}

fn longest_common(a: &[i64], b: &[i64]) -> usize {
    let mut rows = vec![vec![0usize; b.len() + 1]; a.len() + 1];
    for i in 1..=a.len() {
        for j in 1..=b.len() {
            rows[i][j] = if a[i - 1] == b[j - 1] {
                rows[i - 1][j - 1] + 1
            } else {
                rows[i - 1][j].max(rows[i][j - 1])
            };
        }
    }
    rows[a.len()][b.len()]
}

#[test]
fn every_small_list_pair_round_trips() {
    let all = lists(3, 4);
    assert_eq!(all.len(), 121);
    for a in &all {
        for b in &all {
            let base = list_record(a);
            let target = list_record(b);
            let p = base.diff(&target).unwrap();
            assert_eq!(p.is_empty(), a == b);
            let mut c = base.copy();
            let undo = c.apply(p.copy()).unwrap();
            assert!(c.same(&target), "{:?} -> {:?}", a, b);
            c.apply(undo).unwrap();
            assert!(c.same(&base), "{:?} <- {:?}", a, b);
            let read = decode(&encode(&p).unwrap()).unwrap();
            assert!(read.same(&p));
        }
    }
}

#[test]
fn every_small_list_script_is_short() {
    let all = lists(3, 4);
    for a in &all {
        for b in &all {
            let p = list_record(a).diff(&list_record(b)).unwrap();
            let least = a.len() + b.len() - 2 * longest_common(a, b);
            match steps_of(&p) {
                Some(n) => {
                    assert!(n <= least, "{:?} -> {:?}", a, b);
                    assert!(n <= b.len());
                    assert!(n == least || n == 1);
                }
                None => assert!(least > b.len(), "{:?} -> {:?}", a, b),
            }
        }
    }
}

#[test]
fn every_small_dict_pair_round_trips() {
    let all = lists(4, 3);
    for a in &all {
        for b in &all {
            let base = dict_record(a);
            let target = dict_record(b);
            let p = base.diff(&target).unwrap();
            let mut c = base.copy();
            let undo = c.apply(p.copy()).unwrap();
            assert!(c.same(&target), "{:?} -> {:?}", a, b);
            c.apply(undo).unwrap();
            assert!(c.same(&base), "{:?} <- {:?}", a, b);
            let read = decode(&encode(&p).unwrap()).unwrap();
            assert!(read.same(&p));
            let again = base.diff(&target).unwrap();
            assert!(again.same(&p));
        }
    }
}

#[test]
fn long_lists_round_trip() {
    let a: Vec<i64> = (0..300).collect();
    let mut b: Vec<i64> = (0..300).filter(|i| i % 7 != 3).collect();
    b.insert(40, -1);
    b.insert(200, -2);
    b.push(1000);
    let base = list_record(&a);
    let target = list_record(&b);
    let p = base.diff(&target).unwrap();
    let least = a.len() + b.len() - 2 * longest_common(&a, &b);
    assert_eq!(steps_of(&p), Some(least));
    let mut c = base.copy();
    c.apply(p.copy()).unwrap();
    assert!(c.same(&target));
    let read = decode(&encode(&p).unwrap()).unwrap();
    assert!(read.same(&p));
}

#[test]
fn reversed_list_is_replaced() {
    let a: Vec<i64> = (0..1100).collect();
    let b: Vec<i64> = (0..1100).rev().collect();
    let base = list_record(&a);
    let target = list_record(&b);
    let p = base.diff(&target).unwrap();
    assert_eq!(steps_of(&p), None);
    let mut c = base.copy();
    c.apply(p).unwrap();
    assert!(c.same(&target));
}
