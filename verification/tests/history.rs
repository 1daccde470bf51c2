use tig::history::Walk;
use tig::object::Kind;
use tig::oid::Oid;
use tig::Odb;

struct MemOdb(Vec<(Oid, Kind, Vec<u8>)>);

impl Odb for MemOdb {
    fn read(&self, oid: &Oid) -> Option<(Kind, Vec<u8>)> {
        self.0
            .iter()
            .find(|(o, _, _)| o == oid)
            .map(|(_, k, b)| (*k, b.clone()))
    }
}

fn commit(store: &mut MemOdb, parents: &[Oid], time: i64) -> Oid {
    let mut body = Vec::new();
    body.extend_from_slice(b"tree e69de29bb2d1d6434b8b29ae775ad8c2e48c5391\n");
    for p in parents {
        body.extend_from_slice(format!("parent {}\n", p.to_hex()).as_bytes());
    }
    body.extend_from_slice(format!("author A <a@e> {time} +0000\n").as_bytes());
    body.extend_from_slice(format!("committer A <a@e> {time} +0000\n").as_bytes());
    body.extend_from_slice(b"\nmsg\n");
    let oid = tig::object::compute_oid(Kind::Commit, &body);
    store.0.push((oid, Kind::Commit, body));
    oid
}

fn walk_oids<O: Odb>(odb: &O, tips: &[Oid]) -> Vec<Oid> {
    let mut walk = Walk::new(odb);
    for &tip in tips {
        walk.push(tip).unwrap();
    }
    let mut oids = Vec::new();
    while let Some(c) = walk.next() {
        oids.push(c.unwrap().oid);
    }
    oids
}

#[test]
fn linear_history_newest_first() {
    let mut store = MemOdb(vec![]);
    let c1 = commit(&mut store, &[], 100);
    let c2 = commit(&mut store, &[c1], 200);
    let c3 = commit(&mut store, &[c2], 300);
    assert_eq!(walk_oids(&store, &[c3]), vec![c3, c2, c1]);
}

#[test]
fn merge_interleaved_by_date() {
    let mut store = MemOdb(vec![]);
    let base = commit(&mut store, &[], 100);
    let a = commit(&mut store, &[base], 300);
    let b = commit(&mut store, &[base], 200);
    let m = commit(&mut store, &[a, b], 400);
    assert_eq!(walk_oids(&store, &[m]), vec![m, a, b, base]);
}

#[test]
fn missing_parent_is_boundary() {
    let mut store = MemOdb(vec![]);
    let absent = commit(&mut store, &[], 50);
    store.0.clear();
    let c = commit(&mut store, &[absent], 100);
    assert_eq!(walk_oids(&store, &[c]), vec![c]);
}

#[test]
fn duplicate_start_points_dedupe() {
    let mut store = MemOdb(vec![]);
    let c1 = commit(&mut store, &[], 100);
    let c2 = commit(&mut store, &[c1], 200);
    assert_eq!(walk_oids(&store, &[c2, c2, c1]), vec![c2, c1]);
}

#[test]
fn ancestor_tip_with_newer_date_waits_for_child() {
    let mut store = MemOdb(vec![]);
    let p = commit(&mut store, &[], 2000);
    let c = commit(&mut store, &[p], 1000);
    assert_eq!(walk_oids(&store, &[c, p]), vec![c, p]);
}

#[test]
fn skewed_diamond_respects_topology() {
    let mut store = MemOdb(vec![]);
    let p = commit(&mut store, &[], 1000);
    let c = commit(&mut store, &[p], 500);
    let d = commit(&mut store, &[p], 800);
    let m = commit(&mut store, &[c, d], 1200);
    assert_eq!(walk_oids(&store, &[m]), vec![m, d, c, p]);
}

#[test]
fn duplicate_parents_counted_once() {
    let mut store = MemOdb(vec![]);
    let p = commit(&mut store, &[], 100);
    let m = commit(&mut store, &[p, p], 200);
    assert_eq!(walk_oids(&store, &[m]), vec![m, p]);
}
