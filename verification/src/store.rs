//! The per-directory "last viewed" sidecar store.
//!
//! A store is a sequence of `(path, stamp)` records with pairwise distinct
//! paths. On disk it is one line per record, the path separated from the
//! stamp by the first `|` on the line; the whole file is rewritten on every
//! update. Loading splits the content into lines, skips lines without a `|`,
//! and lets a later line for the same path win.

use vstd::prelude::*;
use crate::bytes::{
    first_pos, lemma_first_pos, lemma_first_pos_is, bytes_eq, copy_range, push_all, find_byte_from,
};

verus! {

/// Newline byte, the record separator of the sidecar format.
pub const NL: u8 = 10;

/// Carriage-return byte, stripped from a line end when loading.
pub const CR: u8 = 13;

/// `|`, the byte separating a path from its stamp within a line.
pub const BAR: u8 = 124;

/// A path may serve as a store key iff it contains neither the record
/// separator nor the field separator.
pub open spec fn key_wf(k: Seq<u8>) -> bool {
    forall|i: int| 0 <= i < k.len() ==> k[i] != NL && k[i] != BAR
}

/// What holds of every stamp a load can produce: no record separator.
pub open spec fn stamp_ok(t: Seq<u8>) -> bool {
    forall|i: int| 0 <= i < t.len() ==> t[i] != NL
}

/// A stamp this library writes: no record separator and no carriage return,
/// so that saving and loading hand it back unchanged.
pub open spec fn stamp_wf(t: Seq<u8>) -> bool {
    forall|i: int| 0 <= i < t.len() ==> t[i] != NL && t[i] != CR
}

/// Pairwise distinct paths: at most one stamp per path.
pub open spec fn distinct_keys(v: Seq<(Seq<u8>, Seq<u8>)>) -> bool {
    forall|i: int, j: int| 0 <= i < j < v.len() ==> v[i].0 != v[j].0
}

/// Well-formedness of a store value: distinct keys, each key fit for the
/// line format, each stamp free of the record separator.
pub open spec fn store_wf(v: Seq<(Seq<u8>, Seq<u8>)>) -> bool {
    &&& distinct_keys(v)
    &&& forall|i: int| 0 <= i < v.len() ==> key_wf(#[trigger] v[i].0) && stamp_ok(v[i].1)
}

/// Every stamp in the store is one this library could have written.
pub open spec fn stamps_clean(v: Seq<(Seq<u8>, Seq<u8>)>) -> bool {
    forall|i: int| 0 <= i < v.len() ==> stamp_wf(#[trigger] v[i].1)
}

/// The serialized form of one record: `path|stamp`.
pub open spec fn spec_line(e: (Seq<u8>, Seq<u8>)) -> Seq<u8> {
    e.0 + seq![BAR] + e.1
}

/// The serialized form of a store: its record lines joined by newlines,
/// with no trailing newline.
pub open spec fn spec_serialize(v: Seq<(Seq<u8>, Seq<u8>)>) -> Seq<u8>
    decreases v.len(),
{
    if v.len() == 0 {
        Seq::empty()
    } else if v.len() == 1 {
        spec_line(v[0])
    } else {
        spec_line(v[0]) + seq![NL] + spec_serialize(v.drop_first())
    }
}

/// Splits content into lines at newline bytes; a final newline is optional
/// and does not open an empty last line.
pub open spec fn spec_split_lines(c: Seq<u8>) -> Seq<Seq<u8>>
    decreases c.len(),
{
    if c.len() == 0 {
        Seq::empty()
    } else {
        let fp = first_pos(c, NL);
        if 0 <= fp < c.len() {
            seq![c.take(fp)] + spec_split_lines(c.skip(fp + 1))
        } else {
            seq![c]
        }
    }
}

/// Drops one trailing carriage return from a line, as loading does.
pub open spec fn strip_cr(l: Seq<u8>) -> Seq<u8> {
    if l.len() > 0 && l.last() == CR {
        l.drop_last()
    } else {
        l
    }
}

/// Splits a line at its first `|` into `(path, stamp)`; a line without `|`
/// is malformed and yields nothing.
pub open spec fn split_bar(l: Seq<u8>) -> Option<(Seq<u8>, Seq<u8>)> {
    let fp = first_pos(l, BAR);
    if 0 <= fp < l.len() {
        Some((l.take(fp), l.skip(fp + 1)))
    } else {
        None
    }
}

/// Inserts or overwrites: replaces the stamp of the first record whose path
/// is `k`, or appends a new record at the end.
pub open spec fn upsert(v: Seq<(Seq<u8>, Seq<u8>)>, k: Seq<u8>, t: Seq<u8>) -> Seq<
    (Seq<u8>, Seq<u8>),
>
    decreases v.len(),
{
    if v.len() == 0 {
        seq![(k, t)]
    } else if v[0].0 == k {
        seq![(k, t)] + v.drop_first()
    } else {
        seq![v[0]] + upsert(v.drop_first(), k, t)
    }
}

/// The stamp recorded for path `k`, if any.
pub open spec fn spec_lookup(v: Seq<(Seq<u8>, Seq<u8>)>, k: Seq<u8>) -> Option<Seq<u8>>
    decreases v.len(),
{
    if v.len() == 0 {
        None
    } else if v[0].0 == k {
        Some(v[0].1)
    } else {
        spec_lookup(v.drop_first(), k)
    }
}

/// Folds the lines of a sidecar file into a store value, later lines for the
/// same path winning.
pub open spec fn parse_lines(
    acc: Seq<(Seq<u8>, Seq<u8>)>,
    ls: Seq<Seq<u8>>,
) -> Seq<(Seq<u8>, Seq<u8>)>
    decreases ls.len(),
{
    if ls.len() == 0 {
        acc
    } else {
        match split_bar(strip_cr(ls[0])) {
            Option::Some(kt) => parse_lines(upsert(acc, kt.0, kt.1), ls.drop_first()),
            Option::None => parse_lines(acc, ls.drop_first()),
        }
    }
}

/// What loading a sidecar file with the given content yields.
pub open spec fn spec_parse(c: Seq<u8>) -> Seq<(Seq<u8>, Seq<u8>)> {
    parse_lines(Seq::empty(), spec_split_lines(c))
}

/// One record of the store: a path and the stamp of its last viewing.
pub struct StoreEntry {
    pub path: Vec<u8>,
    pub stamp: Vec<u8>,
}

impl View for StoreEntry {
    type V = (Seq<u8>, Seq<u8>);

    open spec fn view(&self) -> (Seq<u8>, Seq<u8>) {
        (self.path@, self.stamp@)
    }
}

/// The viewed-timestamp store of one directory.
pub struct Store {
    pub entries: Vec<StoreEntry>,
}

impl View for Store {
    type V = Seq<(Seq<u8>, Seq<u8>)>;

    open spec fn view(&self) -> Seq<(Seq<u8>, Seq<u8>)> {
        self.entries@.map_values(|e: StoreEntry| e@)
    }
}

impl Store {
    /// The empty store, what loading a missing or unreadable file yields.
    pub fn new() -> (s: Store)
        ensures
            s@ =~= Seq::<(Seq<u8>, Seq<u8>)>::empty(),
    {
        Store { entries: Vec::new() }
    }

    /// The stamp recorded for `key`, if any.
    pub fn lookup(&self, key: &Vec<u8>) -> (r: Option<Vec<u8>>)
        ensures
            match r {
                Option::Some(t) => spec_lookup(self@, key@) == Option::Some(t@),
                Option::None => spec_lookup(self@, key@) == Option::<Seq<u8>>::None,
            },
    {
        let n = self.entries.len();
        let mut i: usize = 0;
        while i < n
            invariant
                i <= n,
                n == self.entries@.len(),
                forall|j: int| 0 <= j < i ==> self@[j].0 != key@,
            decreases n - i,
        {
            if bytes_eq(&self.entries[i].path, key) {
                proof {
                    lemma_lookup_prefix(self@, key@, i as int);
                }
                let t = copy_range(&self.entries[i].stamp, 0, self.entries[i].stamp.len());
                proof {
                    assert(t@ =~= self@[i as int].1);
                }
                return Some(t);
            }
            i = i + 1;
        }
        proof {
            lemma_lookup_prefix(self@, key@, n as int);
            assert(self@.skip(n as int).len() == 0);
        }
        None
    }

    /// Inserts or overwrites the record for `key` with `stamp`.
    pub fn record(&mut self, key: &Vec<u8>, stamp: &Vec<u8>)
        ensures
            final(self)@ == upsert(old(self)@, key@, stamp@),
    {
        let n = self.entries.len();
        let mut i: usize = 0;
        while i < n
            invariant
                i <= n,
                n == self.entries@.len(),
                self@ == old(self)@,
                forall|j: int| 0 <= j < i ==> self@[j].0 != key@,
            decreases n - i,
        {
            if bytes_eq(&self.entries[i].path, key) {
                let e = StoreEntry {
                    path: copy_range(key, 0, key.len()),
                    stamp: copy_range(stamp, 0, stamp.len()),
                };
                proof {
                    assert(e@.0 =~= key@);
                    assert(e@.1 =~= stamp@);
                }
                self.entries[i] = e;
                proof {
                    assert(self@ =~= old(self)@.update(i as int, (key@, stamp@)));
                    lemma_upsert_at(old(self)@, key@, stamp@, i as int);
                }
                return;
            }
            i = i + 1;
        }
        let e = StoreEntry {
            path: copy_range(key, 0, key.len()),
            stamp: copy_range(stamp, 0, stamp.len()),
        };
        proof {
            assert(e@.0 =~= key@);
            assert(e@.1 =~= stamp@);
        }
        self.entries.push(e);
        proof {
            assert(self@ =~= old(self)@.push((key@, stamp@)));
            lemma_upsert_absent(old(self)@, key@, stamp@);
        }
    }

    /// Serializes the store into sidecar-file content.
    pub fn serialize(&self) -> (r: Vec<u8>)
        ensures
            r@ == spec_serialize(self@),
    {
        let mut r: Vec<u8> = Vec::new();
        let n = self.entries.len();
        let mut i: usize = 0;
        proof {
            assert(self@.take(0) =~= Seq::<(Seq<u8>, Seq<u8>)>::empty());
        }
        while i < n
            invariant
                i <= n,
                n == self.entries@.len(),
                r@ == spec_serialize(self@.take(i as int)),
            decreases n - i,
        {
            if i > 0 {
                r.push(NL);
            }
            push_all(&mut r, &self.entries[i].path);
            r.push(BAR);
            push_all(&mut r, &self.entries[i].stamp);
            proof {
                let v = self@;
                assert(v.take(i + 1) =~= v.take(i as int).push(v[i as int]));
                lemma_serialize_snoc(v.take(i as int), v[i as int]);
                if i > 0 {
                    assert(r@ =~= spec_serialize(v.take(i as int)) + seq![NL] + spec_line(
                        v[i as int],
                    ));
                } else {
                    assert(r@ =~= spec_line(v[i as int]));
                }
            }
            i = i + 1;
        }
        proof {
            assert(self@.take(n as int) =~= self@);
        }
        r
    }
}

/// Parses sidecar-file content into a store. The result is well formed
/// whatever the content: keys are distinct and fit the line format.
pub fn parse_store(content: &Vec<u8>) -> (s: Store)
    ensures
        s@ == spec_parse(content@),
        store_wf(s@),
{
    let mut s = Store::new();
    let n = content.len();
    let mut i: usize = 0;
    proof {
        assert(content@.skip(0) =~= content@);
        assert(s@ =~= Seq::<(Seq<u8>, Seq<u8>)>::empty());
    }
    while i < n
        invariant
            i <= n,
            n == content@.len(),
            store_wf(s@),
            parse_lines(s@, spec_split_lines(content@.skip(i as int))) == spec_parse(content@),
        decreases n - i,
    {
        let ghost rest = content@.skip(i as int);
        let ghost fp = first_pos(rest, NL);
        proof {
            lemma_first_pos(rest, NL);
        }
        let j = find_byte_from(content, i, NL);
        let mut line = copy_range(content, i, j);
        proof {
            assert(line@ =~= rest.take(fp));
        }
        let ghost raw = line@;
        if line.len() > 0 && line[line.len() - 1] == CR {
            let _ = line.pop();
        }
        proof {
            assert(line@ =~= strip_cr(raw));
            // every byte of the line comes from before the first newline
            assert(forall|w: int| 0 <= w < line@.len() ==> line@[w] == rest[w] && rest[w] != NL);
        }
        let p = find_byte_from(&line, 0, BAR);
        proof {
            assert(line@.skip(0) =~= line@);
            lemma_first_pos(line@, BAR);
        }
        let ghost s_before = s@;
        if p < line.len() {
            let key = copy_range(&line, 0, p);
            let stamp = copy_range(&line, p + 1, line.len());
            proof {
                assert(key@ =~= line@.take(p as int));
                assert(stamp@ =~= line@.skip(p + 1));
                assert(split_bar(line@) == Option::Some((key@, stamp@)));
                assert(key_wf(key@));
                assert(stamp_ok(stamp@));
                lemma_upsert_wf(s@, key@, stamp@);
            }
            s.record(&key, &stamp);
            proof {
                assert(s@ == upsert(s_before, key@, stamp@));
                assert(store_wf(s@));
                assert(split_bar(strip_cr(raw)) == Option::Some((key@, stamp@)));
            }
        } else {
            proof {
                assert(split_bar(line@) == Option::<(Seq<u8>, Seq<u8>)>::None);
            }
        }
        proof {
            let ls = spec_split_lines(rest);
            if fp < rest.len() {
                assert(ls == seq![rest.take(fp)] + spec_split_lines(rest.skip(fp + 1)));
                assert(ls.len() > 0 && ls[0] == raw);
                assert(ls.drop_first() =~= spec_split_lines(rest.skip(fp + 1)));
                assert(rest.skip(fp + 1) =~= content@.skip(j + 1));
                assert(parse_lines(s_before, ls) == parse_lines(s@, ls.drop_first()));
                assert(parse_lines(s@, spec_split_lines(content@.skip(j + 1))) == spec_parse(
                    content@,
                ));
            } else {
                assert(fp == rest.len() && rest.len() > 0);
                assert(ls == seq![rest]);
                assert(rest.take(fp) =~= rest);
                assert(ls[0] == raw);
                assert(ls.drop_first() =~= Seq::<Seq<u8>>::empty());
                assert(parse_lines(s_before, ls) == parse_lines(s@, ls.drop_first()));
                assert(s@ == spec_parse(content@));
                assert(content@.skip(n as int).len() == 0);
                assert(spec_split_lines(content@.skip(n as int)) == Seq::<Seq<u8>>::empty());
            }
        }
        if j < n {
            i = j + 1;
        } else {
            i = n;
        }
    }
    proof {
        assert(content@.skip(n as int).len() == 0);
        assert(spec_split_lines(content@.skip(n as int)) == Seq::<Seq<u8>>::empty());
    }
    s
}

/// Relies on chrono's `Local::now` and its `format` with `%Y-%m-%d %H:%M:%S`:
/// the output is numbers separated by `-`, space and `:`, so it holds no
/// newline and no carriage return, whatever the current time is.
#[verifier::external_body]
fn now_timestamp() -> (r: Vec<u8>)
    ensures
        stamp_wf(r@),
{
    chrono::Local::now().format("%Y-%m-%d %H:%M:%S").to_string().into_bytes()
}

impl Store {
    /// The stamp a listing row shows for `path`: the recorded one, or the
    /// `N/A` placeholder when none is recorded.
    pub fn viewed_label(&self, path: &Vec<u8>) -> (r: Vec<u8>)
        ensures
            match spec_lookup(self@, path@) {
                Option::Some(t) => r@ == t,
                Option::None => r@ == seq![78u8, 47u8, 65u8],
            },
    {
        match self.lookup(path) {
            Some(t) => t,
            None => {
                let r: Vec<u8> = vec![78u8, 47u8, 65u8];
                proof {
                    assert(r@ =~= seq![78u8, 47u8, 65u8]);
                }
                r
            },
        }
    }

    /// Records the current local time as the viewing stamp of `path`,
    /// overwriting an earlier record for the same path.
    pub fn record_viewed(&mut self, path: &Vec<u8>)
        ensures
            exists|t: Seq<u8>|
                #![trigger upsert(old(self)@, path@, t)]
                stamp_wf(t) && final(self)@ == upsert(old(self)@, path@, t),
    {
        let stamp = now_timestamp();
        self.record(path, &stamp);
        proof {
            assert(stamp_wf(stamp@) && self@ == upsert(old(self)@, path@, stamp@));
        }
    }
}

/// The record lines of a store value, in order.
pub open spec fn lines_of(v: Seq<(Seq<u8>, Seq<u8>)>) -> Seq<Seq<u8>> {
    v.map_values(|e: (Seq<u8>, Seq<u8>)| spec_line(e))
}

/// Serialized well-formed content splits back into exactly the record lines.
proof fn lemma_split_serialize(v: Seq<(Seq<u8>, Seq<u8>)>)
    requires
        forall|i: int| 0 <= i < v.len() ==> key_wf(#[trigger] v[i].0) && stamp_ok(v[i].1),
    ensures
        spec_split_lines(spec_serialize(v)) == lines_of(v),
    decreases v.len(),
{
    if v.len() == 0 {
        assert(spec_split_lines(spec_serialize(v)) =~= lines_of(v));
    } else if v.len() == 1 {
        let c = spec_serialize(v);
        assert(c == spec_line(v[0]));
        assert(c.len() > 0);
        assert forall|j: int| 0 <= j < c.len() implies c[j] != NL by {
            assert(key_wf(v[0].0) && stamp_ok(v[0].1));
        }
        lemma_first_pos_is(c, NL, c.len() as int);
        assert(spec_split_lines(c) =~= seq![c]);
        assert(spec_split_lines(c) =~= lines_of(v));
    } else {
        let c = spec_serialize(v);
        let rest = v.drop_first();
        let line0 = spec_line(v[0]);
        assert(c == line0 + seq![NL] + spec_serialize(rest));
        assert forall|j: int| 0 <= j < line0.len() implies c[j] != NL by {
            assert(key_wf(v[0].0) && stamp_ok(v[0].1));
            assert(c[j] == line0[j]);
        }
        assert(c[line0.len() as int] == NL);
        lemma_first_pos_is(c, NL, line0.len() as int);
        assert(c.take(line0.len() as int) =~= line0);
        assert(c.skip(line0.len() as int + 1) =~= spec_serialize(rest));
        assert forall|i: int| 0 <= i < rest.len() implies key_wf(#[trigger] rest[i].0) && stamp_ok(
            rest[i].1,
        ) by {
            assert(key_wf(v[i + 1].0) && stamp_ok(v[i + 1].1));
        }
        lemma_split_serialize(rest);
        assert(spec_split_lines(c) == seq![line0] + lines_of(rest));
        assert(seq![line0] + lines_of(rest) =~= lines_of(v));
    }
}

/// A well-formed record's line strips and splits back into the record.
proof fn lemma_line_roundtrip(e: (Seq<u8>, Seq<u8>))
    requires
        key_wf(e.0),
        stamp_wf(e.1),
    ensures
        strip_cr(spec_line(e)) == spec_line(e),
        split_bar(spec_line(e)) == Option::Some(e),
{
    let l = spec_line(e);
    assert(l.len() == e.0.len() + 1 + e.1.len());
    if e.1.len() > 0 {
        assert(l.last() == e.1.last());
        assert(e.1.last() != CR);
    } else {
        assert(l.last() == BAR);
    }
    assert(strip_cr(l) == l);
    assert forall|j: int| 0 <= j < e.0.len() implies l[j] != BAR by {
        assert(l[j] == e.0[j]);
    }
    assert(l[e.0.len() as int] == BAR);
    lemma_first_pos_is(l, BAR, e.0.len() as int);
    assert(l.take(e.0.len() as int) =~= e.0);
    assert(l.skip(e.0.len() as int + 1) =~= e.1);
    assert(split_bar(l) == Option::Some((e.0, e.1)));
}

/// Folding the lines of well-formed records with fresh keys appends them.
proof fn lemma_parse_lines_fresh(acc: Seq<(Seq<u8>, Seq<u8>)>, v: Seq<(Seq<u8>, Seq<u8>)>)
    requires
        distinct_keys(v),
        forall|i: int, j: int|
            #![trigger v[i].0, acc[j].0]
            0 <= i < v.len() && 0 <= j < acc.len() ==> v[i].0 != acc[j].0,
        forall|i: int| 0 <= i < v.len() ==> key_wf(#[trigger] v[i].0) && stamp_wf(v[i].1),
    ensures
        parse_lines(acc, lines_of(v)) == acc + v,
    decreases v.len(),
{
    if v.len() == 0 {
        assert(lines_of(v).len() == 0);
        assert(acc + v =~= acc);
    } else {
        let ls = lines_of(v);
        assert(ls[0] == spec_line(v[0]));
        assert(key_wf(v[0].0) && stamp_wf(v[0].1));
        lemma_line_roundtrip(v[0]);
        assert(split_bar(strip_cr(ls[0])) == Option::Some((v[0].0, v[0].1)));
        assert forall|j: int| 0 <= j < acc.len() implies acc[j].0 != v[0].0 by {
            assert(v[0].0 != acc[j].0);
        }
        lemma_upsert_absent(acc, v[0].0, v[0].1);
        let acc2 = acc.push((v[0].0, v[0].1));
        assert(acc2 == acc.push(v[0]));
        assert(parse_lines(acc, ls) == parse_lines(acc2, ls.drop_first()));
        let rest = v.drop_first();
        assert(ls.drop_first() =~= lines_of(rest));
        assert forall|i: int, j: int|
            #![trigger rest[i].0, acc2[j].0]
            0 <= i < rest.len() && 0 <= j < acc2.len() implies rest[i].0 != acc2[j].0 by {
            assert(rest[i] == v[i + 1]);
            if j < acc.len() {
                assert(v[i + 1].0 != acc[j].0);
            } else {
                assert(acc2[j] == v[0]);
                assert(v[0].0 != v[i + 1].0);
            }
        }
        assert forall|i: int| 0 <= i < rest.len() implies key_wf(#[trigger] rest[i].0) && stamp_wf(
            rest[i].1,
        ) by {
            assert(key_wf(v[i + 1].0) && stamp_wf(v[i + 1].1));
        }
        assert(distinct_keys(rest)) by {
            assert forall|i: int, j: int| 0 <= i < j < rest.len() implies rest[i].0 != rest[j].0 by {
                assert(v[i + 1].0 != v[j + 1].0);
            }
        }
        lemma_parse_lines_fresh(acc2, rest);
        assert(acc2 + rest =~= acc + v);
    }
}

/// Saving a store and loading it back is the identity, and saving again
/// produces byte-for-byte the same content: the store file reaches a fixed
/// point after one save.
pub proof fn lemma_save_load_identity(v: Seq<(Seq<u8>, Seq<u8>)>)
    requires
        store_wf(v),
        stamps_clean(v),
    ensures
        spec_parse(spec_serialize(v)) == v,
        spec_serialize(spec_parse(spec_serialize(v))) == spec_serialize(v),
{
    lemma_split_serialize(v);
    assert forall|i: int| 0 <= i < v.len() implies key_wf(#[trigger] v[i].0) && stamp_wf(
        v[i].1,
    ) by {
        assert(stamp_wf(v[i].1));
    }
    lemma_parse_lines_fresh(Seq::empty(), v);
    assert(Seq::empty() + v =~= v);
}

/// Recording a stamp for a path, saving, and loading yields exactly that
/// stamp for that path, and leaves every other path's stamp as it was.
pub proof fn lemma_record_round_trip(v: Seq<(Seq<u8>, Seq<u8>)>, k: Seq<u8>, t: Seq<u8>)
    requires
        store_wf(v),
        stamps_clean(v),
        key_wf(k),
        stamp_wf(t),
    ensures
        spec_lookup(spec_parse(spec_serialize(upsert(v, k, t))), k) == Option::Some(t),
        forall|k2: Seq<u8>|
            k2 != k ==> spec_lookup(spec_parse(spec_serialize(upsert(v, k, t))), k2)
                == spec_lookup(v, k2),
{
    lemma_upsert_wf(v, k, t);
    lemma_save_load_identity(upsert(v, k, t));
}

/// Serializing one more record appends a newline and its line.
proof fn lemma_serialize_snoc(v: Seq<(Seq<u8>, Seq<u8>)>, e: (Seq<u8>, Seq<u8>))
    ensures
        v.len() == 0 ==> spec_serialize(v.push(e)) == spec_line(e),
        v.len() > 0 ==> spec_serialize(v.push(e)) == spec_serialize(v) + seq![NL] + spec_line(e),
    decreases v.len(),
{
    if v.len() == 0 {
        assert(v.push(e)[0] == e);
        assert(spec_serialize(v.push(e)) == spec_line(e));
    } else {
        lemma_serialize_snoc(v.drop_first(), e);
        assert(v.push(e).drop_first() =~= v.drop_first().push(e));
        assert(v.push(e)[0] == v[0]);
        if v.len() == 1 {
            assert(spec_serialize(v.push(e)) == spec_line(v[0]) + seq![NL] + spec_serialize(
                v.drop_first().push(e),
            ));
            assert(spec_serialize(v.drop_first().push(e)) == spec_line(e));
        } else {
            assert(spec_serialize(v.push(e)) =~= spec_line(v[0]) + seq![NL] + (spec_serialize(
                v.drop_first(),
            ) + seq![NL] + spec_line(e)));
            assert(spec_line(v[0]) + seq![NL] + (spec_serialize(v.drop_first()) + seq![NL]
                + spec_line(e)) =~= (spec_line(v[0]) + seq![NL] + spec_serialize(v.drop_first()))
                + seq![NL] + spec_line(e));
        }
    }
}

/// If no path among the first `i` records is `k`, a lookup is decided by the
/// records from `i` on.
proof fn lemma_lookup_prefix(v: Seq<(Seq<u8>, Seq<u8>)>, k: Seq<u8>, i: int)
    requires
        0 <= i <= v.len(),
        forall|j: int| 0 <= j < i ==> v[j].0 != k,
    ensures
        spec_lookup(v, k) == spec_lookup(v.skip(i), k),
    decreases i,
{
    if i > 0 {
        lemma_lookup_prefix(v.drop_first(), k, i - 1);
        assert(v.drop_first().skip(i - 1) =~= v.skip(i));
    } else {
        assert(v.skip(0) =~= v);
    }
}

/// When the first record with path `k` stands at `i`, upserting is updating
/// that record in place.
proof fn lemma_upsert_at(v: Seq<(Seq<u8>, Seq<u8>)>, k: Seq<u8>, t: Seq<u8>, i: int)
    requires
        0 <= i < v.len(),
        v[i].0 == k,
        forall|j: int| 0 <= j < i ==> v[j].0 != k,
    ensures
        upsert(v, k, t) == v.update(i, (k, t)),
    decreases i,
{
    if i == 0 {
        assert(upsert(v, k, t) =~= v.update(0, (k, t)));
    } else {
        lemma_upsert_at(v.drop_first(), k, t, i - 1);
        assert(upsert(v, k, t) =~= seq![v[0]] + v.drop_first().update(i - 1, (k, t)));
        assert(seq![v[0]] + v.drop_first().update(i - 1, (k, t)) =~= v.update(i, (k, t)));
    }
}

/// When no record has path `k`, upserting appends a record at the end.
proof fn lemma_upsert_absent(v: Seq<(Seq<u8>, Seq<u8>)>, k: Seq<u8>, t: Seq<u8>)
    requires
        forall|j: int| 0 <= j < v.len() ==> v[j].0 != k,
    ensures
        upsert(v, k, t) == v.push((k, t)),
    decreases v.len(),
{
    if v.len() == 0 {
        assert(upsert(v, k, t) =~= v.push((k, t)));
    } else {
        lemma_upsert_absent(v.drop_first(), k, t);
        assert(upsert(v, k, t) =~= seq![v[0]] + v.drop_first().push((k, t)));
        assert(seq![v[0]] + v.drop_first().push((k, t)) =~= v.push((k, t)));
    }
}

/// Upserting into a well-formed store with a well-formed key and stamp keeps
/// the store well formed, sets the record for `k`, and leaves every other
/// record's stamp alone.
pub proof fn lemma_upsert_wf(v: Seq<(Seq<u8>, Seq<u8>)>, k: Seq<u8>, t: Seq<u8>)
    requires
        store_wf(v),
        key_wf(k),
        stamp_ok(t),
    ensures
        store_wf(upsert(v, k, t)),
        spec_lookup(upsert(v, k, t), k) == Option::Some(t),
        forall|k2: Seq<u8>| k2 != k ==> spec_lookup(upsert(v, k, t), k2) == spec_lookup(v, k2),
        forall|i: int|
            0 <= i < upsert(v, k, t).len() ==> upsert(v, k, t)[i] == (k, t) || v.contains(
                #[trigger] upsert(v, k, t)[i],
            ),
        stamps_clean(v) && stamp_wf(t) ==> stamps_clean(upsert(v, k, t)),
    decreases v.len(),
{
    let u = upsert(v, k, t);
    if v.len() == 0 {
        assert(u[0] == (k, t));
        assert forall|k2: Seq<u8>| k2 != k implies spec_lookup(u, k2) == spec_lookup(v, k2) by {
            assert(u.drop_first() =~= Seq::<(Seq<u8>, Seq<u8>)>::empty());
            assert(spec_lookup(u, k2) == spec_lookup(u.drop_first(), k2));
        }
    } else if v[0].0 == k {
        assert(u[0] == (k, t));
        assert forall|i: int| 0 <= i < u.len() implies u[i] == (k, t) || v.contains(u[i]) by {
            if i > 0 {
                assert(u[i] == v[i]);
                assert(v.contains(v[i]));
            }
        }
        assert forall|k2: Seq<u8>| k2 != k implies spec_lookup(u, k2) == spec_lookup(v, k2) by {
            assert(u.drop_first() =~= v.drop_first());
        }
    } else {
        let rest = v.drop_first();
        assert(store_wf(rest)) by {
            assert forall|i: int, j: int| 0 <= i < j < rest.len() implies rest[i].0 != rest[j].0 by {
                assert(v[i + 1].0 != v[j + 1].0);
            }
            assert forall|i: int| 0 <= i < rest.len() implies key_wf(#[trigger] rest[i].0)
                && stamp_ok(rest[i].1) by {
                assert(key_wf(v[i + 1].0) && stamp_ok(v[i + 1].1));
            }
        }
        lemma_upsert_wf(rest, k, t);
        let ur = upsert(rest, k, t);
        assert(u =~= seq![v[0]] + ur);
        assert(u[0] == v[0]);
        assert(u.drop_first() =~= ur);
        assert(spec_lookup(u, k) == spec_lookup(ur, k));
        assert forall|i: int| 0 <= i < u.len() implies u[i] == (k, t) || v.contains(u[i]) by {
            if i == 0 {
                assert(v.contains(v[0]));
            } else {
                assert(u[i] == ur[i - 1]);
                if ur[i - 1] == (k, t) {
                } else {
                    assert(rest.contains(ur[i - 1]));
                    let w = choose|w: int| 0 <= w < rest.len() && rest[w] == ur[i - 1];
                    assert(v[w + 1] == ur[i - 1]);
                    assert(v.contains(v[w + 1]));
                }
            }
        }
        assert(distinct_keys(u)) by {
            assert forall|i: int, j: int| 0 <= i < j < u.len() implies u[i].0 != u[j].0 by {
                if i == 0 {
                    // the head key differs from `k` and from every other key of `v`
                    if u[j] == (k, t) {
                        assert(u[0].0 != k);
                    } else {
                        assert(rest.contains(ur[j - 1]));
                        let w = choose|w: int| 0 <= w < rest.len() && rest[w] == ur[j - 1];
                        assert(v[0].0 != v[w + 1].0);
                    }
                } else {
                    assert(ur[i - 1].0 != ur[j - 1].0);
                }
            }
        }
        assert forall|k2: Seq<u8>| k2 != k implies spec_lookup(u, k2) == spec_lookup(v, k2) by {
            if k2 != v[0].0 {
                assert(spec_lookup(ur, k2) == spec_lookup(rest, k2));
                assert(spec_lookup(u, k2) == spec_lookup(ur, k2));
                assert(spec_lookup(v, k2) == spec_lookup(rest, k2));
            }
        }
        if stamps_clean(v) && stamp_wf(t) {
            assert(stamps_clean(rest)) by {
                assert forall|i: int| 0 <= i < rest.len() implies stamp_wf(
                    #[trigger] rest[i].1,
                ) by {
                    assert(stamp_wf(v[i + 1].1));
                }
            }
            assert forall|i: int| 0 <= i < u.len() implies stamp_wf(#[trigger] u[i].1) by {
                if i > 0 {
                    assert(stamp_wf(ur[i - 1].1));
                }
            }
        }
    }
}

} // verus!
