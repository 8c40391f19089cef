//! Directory listings: entry classification and ordering.
//!
//! A listing holds the synthetic parent marker at index 0, followed by the
//! directory's children sorted with directories before files and, within one
//! kind, by file name in byte order.

use vstd::prelude::*;
use vstd::multiset::Multiset;
use crate::bytes::{
    last_pos, lemma_last_pos, lex_le, lemma_lex_le_total, lemma_lex_le_trans, copy_range, bytes_le,
    rfind_byte,
};

verus! {

broadcast use vstd::seq_lib::group_to_multiset_ensures;

/// `/`, the path component separator.
pub const SLASH: u8 = 47;

/// `.`, the extension separator within a file name.
pub const DOT: u8 = 46;

/// The final component of a path: everything after its last `/`.
pub open spec fn spec_file_name(p: Seq<u8>) -> Seq<u8> {
    p.skip(last_pos(p, SLASH) + 1)
}

/// The extension of a path: what follows the last `.` of its file name.
/// A name without a `.` past its first byte has none, and neither have the
/// relative components `.` and `..`.
pub open spec fn spec_ext(p: Seq<u8>) -> Option<Seq<u8>> {
    let name = spec_file_name(p);
    if name == seq![DOT] || name == seq![DOT, DOT] {
        None
    } else {
        let d = last_pos(name, DOT);
        if d <= 0 {
            None
        } else {
            Some(name.skip(d + 1))
        }
    }
}

/// The extensions eligible for viewing: `md`, `txt`, `doc`, `html`.
pub open spec fn ext_allowed(e: Seq<u8>) -> bool {
    ||| e == seq![109u8, 100u8]
    ||| e == seq![116u8, 120u8, 116u8]
    ||| e == seq![100u8, 111u8, 99u8]
    ||| e == seq![104u8, 116u8, 109u8, 108u8]
}

/// A path names a text candidate iff its extension is on the allow-list.
pub open spec fn spec_is_text(p: Seq<u8>) -> bool {
    match spec_ext(p) {
        Some(e) => ext_allowed(e),
        None => false,
    }
}

/// The final component of `p`, as a fresh vector.
pub fn file_name_of(p: &Vec<u8>) -> (r: Vec<u8>)
    ensures
        r@ == spec_file_name(p@),
{
    let n = p.len();
    proof {
        lemma_last_pos(p@, SLASH);
    }
    let start: usize = match rfind_byte(p, SLASH) {
        Some(i) => i + 1,
        None => 0,
    };
    let r = copy_range(p, start, p.len());
    proof {
        assert(r@ =~= spec_file_name(p@));
    }
    r
}

/// Whether the path's extension is on the allow-list, the exact byte match
/// the listing uses to decide which files are text candidates.
pub fn is_text_file(path: &Vec<u8>) -> (r: bool)
    ensures
        r == spec_is_text(path@),
{
    let name = file_name_of(path);
    if name.len() == 1 && name[0] == DOT {
        proof {
            assert(name@ =~= seq![DOT]);
        }
        return false;
    }
    if name.len() == 2 && name[0] == DOT && name[1] == DOT {
        proof {
            assert(name@ =~= seq![DOT, DOT]);
        }
        return false;
    }
    proof {
        assert(name@ != seq![DOT] && name@ != seq![DOT, DOT]);
        lemma_last_pos(name@, DOT);
    }
    let d: usize = match rfind_byte(&name, DOT) {
        Some(i) => i,
        None => {
            return false;
        },
    };
    if d == 0 {
        return false;
    }
    let ext = copy_range(&name, d + 1, name.len());
    proof {
        assert(ext@ =~= name@.skip(last_pos(name@, DOT) + 1));
        assert(spec_ext(path@) == Some(ext@));
    }
    let r = if ext.len() == 2 {
        ext[0] == 109 && ext[1] == 100
    } else if ext.len() == 3 {
        (ext[0] == 116 && ext[1] == 120 && ext[2] == 116) || (ext[0] == 100 && ext[1] == 111
            && ext[2] == 99)
    } else if ext.len() == 4 {
        ext[0] == 104 && ext[1] == 116 && ext[2] == 109 && ext[3] == 108
    } else {
        false
    };
    proof {
        if r {
            assert(ext_allowed(ext@)) by {
                if ext@.len() == 2 {
                    assert(ext@ =~= seq![109u8, 100u8]);
                } else if ext@.len() == 3 {
                    if ext@[0] == 116 {
                        assert(ext@ =~= seq![116u8, 120u8, 116u8]);
                    } else {
                        assert(ext@ =~= seq![100u8, 111u8, 99u8]);
                    }
                } else {
                    assert(ext@ =~= seq![104u8, 116u8, 109u8, 108u8]);
                }
            }
        }
    }
    r
}

/// One discovered entry: the path the directory walk produced and whether it
/// is a directory.
pub struct Entry {
    pub path: Vec<u8>,
    pub is_dir: bool,
}

impl View for Entry {
    type V = (Seq<u8>, bool);

    open spec fn view(&self) -> (Seq<u8>, bool) {
        (self.path@, self.is_dir)
    }
}

/// The synthetic parent marker: path `..`, not classified as a directory or
/// text candidate by the ordinary rules.
pub open spec fn parent_marker() -> (Seq<u8>, bool) {
    (seq![DOT, DOT], false)
}

/// The listing order: directories before files; within one kind, file names
/// in byte order.
pub open spec fn entry_le(a: (Seq<u8>, bool), b: (Seq<u8>, bool)) -> bool {
    if a.1 != b.1 {
        a.1
    } else {
        lex_le(spec_file_name(a.0), spec_file_name(b.0))
    }
}

/// `entry_le` is total.
pub proof fn lemma_entry_le_total(a: (Seq<u8>, bool), b: (Seq<u8>, bool))
    ensures
        entry_le(a, b) || entry_le(b, a),
{
    if a.1 == b.1 {
        lemma_lex_le_total(spec_file_name(a.0), spec_file_name(b.0));
    }
}

/// `entry_le` is transitive.
pub proof fn lemma_entry_le_trans(a: (Seq<u8>, bool), b: (Seq<u8>, bool), c: (Seq<u8>, bool))
    requires
        entry_le(a, b),
        entry_le(b, c),
    ensures
        entry_le(a, c),
{
    if a.1 == b.1 && b.1 == c.1 {
        lemma_lex_le_trans(
            spec_file_name(a.0),
            spec_file_name(b.0),
            spec_file_name(c.0),
        );
    }
}

/// The views of a sequence of entries.
pub open spec fn views_of(s: Seq<Entry>) -> Seq<(Seq<u8>, bool)> {
    s.map_values(|e: Entry| e@)
}

/// Sortedness under the listing order.
pub open spec fn listing_sorted(s: Seq<(Seq<u8>, bool)>) -> bool {
    forall|i: int, j: int| 0 <= i < j < s.len() ==> #[trigger] entry_le(s[i], s[j])
}

/// Whether `a@` precedes or equals `b@` in the listing order.
pub fn entry_le_exec(a: &Entry, b: &Entry) -> (r: bool)
    ensures
        r == entry_le(a@, b@),
{
    if a.is_dir != b.is_dir {
        a.is_dir
    } else {
        let an = file_name_of(&a.path);
        let bn = file_name_of(&b.path);
        bytes_le(&an, &bn)
    }
}

/// Builds the listing of a directory from its children: the parent marker at
/// index 0, then exactly the children, sorted in the listing order.
pub fn build_listing(children: Vec<Entry>) -> (r: Vec<Entry>)
    ensures
        r@.len() == children@.len() + 1,
        r@[0]@ == parent_marker(),
        listing_sorted(views_of(r@).skip(1)),
        views_of(r@).skip(1).to_multiset() == views_of(children@).to_multiset(),
{
    let ghost orig = views_of(children@).to_multiset();
    let mut children = children;
    let mut out: Vec<Entry> = Vec::new();
    out.push(Entry { path: vec![DOT, DOT], is_dir: false });
    proof {
        assert(out@[0]@ == parent_marker());
        assert(views_of(out@).skip(1) =~= Seq::<(Seq<u8>, bool)>::empty());
        assert(views_of(out@).skip(1).to_multiset().add(views_of(children@).to_multiset())
            =~= orig);
    }
    while children.len() > 0
        invariant
            out@.len() >= 1,
            out@[0]@ == parent_marker(),
            listing_sorted(views_of(out@).skip(1)),
            views_of(out@).skip(1).to_multiset().add(views_of(children@).to_multiset()) == orig,
            out@.len() + children@.len() == orig.len() + 1,
        decreases children@.len(),
    {
        let ghost ch_views = views_of(children@);
        let e = children.remove(0);
        proof {
            assert(views_of(children@) =~= ch_views.drop_first());
            assert(ch_views.drop_first() =~= ch_views.remove(0));
            assert(ch_views.remove(0).to_multiset() == ch_views.to_multiset().remove(ch_views[0]));
            assert(e@ == ch_views[0]);
        }
        let mut j: usize = 1;
        loop
            invariant
                1 <= j <= out@.len(),
                forall|w: int| 1 <= w < j ==> #[trigger] entry_le(views_of(out@)[w], e@),
            ensures
                1 <= j <= out@.len(),
                forall|w: int| 1 <= w < j ==> #[trigger] entry_le(views_of(out@)[w], e@),
                j < out@.len() ==> !entry_le(out@[j as int]@, e@),
            decreases out@.len() - j,
        {
            if j >= out.len() {
                break;
            }
            if !entry_le_exec(&out[j], &e) {
                break;
            }
            proof {
                assert(views_of(out@)[j as int] == out@[j as int]@);
            }
            j = j + 1;
        }
        proof {
            if j < out@.len() {
                lemma_entry_le_total(out@[j as int]@, e@);
            }
        }
        let ghost old_out = out@;
        out.insert(j, e);
        proof {
            let ov = views_of(old_out);
            let nv = views_of(out@);
            assert(nv =~= ov.insert(j as int, e@));
            assert(nv.skip(1) =~= ov.skip(1).insert(j - 1, e@));
            assert(ov.insert(j as int, e@).to_multiset() == ov.to_multiset().insert(e@));
            assert(ov.skip(1).insert(j - 1, e@).to_multiset() == ov.skip(1).to_multiset().insert(
                e@,
            ));
            assert(listing_sorted(nv.skip(1))) by {
                let s = ov.skip(1);
                let s2 = nv.skip(1);
                let p = j - 1;
                assert forall|x: int, y: int| 0 <= x < y < s2.len() implies #[trigger] entry_le(
                    s2[x],
                    s2[y],
                ) by {
                    if x < p && y < p {
                        assert(entry_le(s[x], s[y]));
                    } else if x < p && y == p {
                        assert(s2[x] == s[x]);
                        assert(entry_le(views_of(old_out)[x + 1], e@));
                    } else if x < p && y > p {
                        assert(entry_le(s[x], s[y - 1]));
                    } else if x == p {
                        // e precedes everything from the insertion point on
                        if j < old_out.len() {
                            assert(entry_le(e@, old_out[j as int]@));
                            assert(s[p] == old_out[j as int]@);
                            if y - 1 > p {
                                assert(entry_le(s[p], s[y - 1]));
                                lemma_entry_le_trans(e@, s[p], s[y - 1]);
                            }
                        }
                    } else {
                        assert(entry_le(s[x - 1], s[y - 1]));
                    }
                }
            }
            assert(nv.skip(1).to_multiset().add(views_of(children@).to_multiset()) =~= orig);
        }
    }
    proof {
        assert(views_of(children@).to_multiset() =~= Multiset::<(Seq<u8>, bool)>::empty());
        assert(views_of(out@).skip(1).to_multiset() =~= orig);
    }
    out
}

} // verus!
