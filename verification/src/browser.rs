//! The browsing loop's decisions: trimming and parsing an input line,
//! resolving a selected index against a listing, moving between directories,
//! and the per-file dialog commands.

use vstd::prelude::*;
use crate::bytes::{last_pos, lemma_last_pos, copy_range, push_all};
use crate::listing::{Entry, spec_is_text, is_text_file, SLASH};

verus! {

/// `q`, the input that ends the browsing loop.
pub open spec fn quit_cmd() -> Seq<u8> {
    seq![113u8]
}

/// `--r`, the dialog command that renames the selected file.
pub open spec fn rename_cmd() -> Seq<u8> {
    seq![45u8, 45u8, 114u8]
}

/// `--d`, the dialog command that deletes the selected file.
pub open spec fn delete_cmd() -> Seq<u8> {
    seq![45u8, 45u8, 100u8]
}

/// ASCII whitespace, what trimming an input line removes.
pub open spec fn is_ws(b: u8) -> bool {
    b == 9 || b == 10 || b == 11 || b == 12 || b == 13 || b == 32
}

/// Drops leading whitespace.
pub open spec fn trim_start_sp(s: Seq<u8>) -> Seq<u8>
    decreases s.len(),
{
    if s.len() > 0 && is_ws(s[0]) {
        trim_start_sp(s.drop_first())
    } else {
        s
    }
}

/// Drops trailing whitespace.
pub open spec fn trim_end_sp(s: Seq<u8>) -> Seq<u8>
    decreases s.len(),
{
    if s.len() > 0 && is_ws(s.last()) {
        trim_end_sp(s.drop_last())
    } else {
        s
    }
}

/// An input line with leading and trailing whitespace removed.
pub open spec fn spec_trim(s: Seq<u8>) -> Seq<u8> {
    trim_end_sp(trim_start_sp(s))
}

/// When the first `a` bytes are whitespace and byte `a` is not, dropping
/// leading whitespace is skipping `a` bytes.
proof fn lemma_trim_start_skip(s: Seq<u8>, a: int)
    requires
        0 <= a <= s.len(),
        forall|j: int| 0 <= j < a ==> is_ws(s[j]),
        a < s.len() ==> !is_ws(s[a]),
    ensures
        trim_start_sp(s) == s.skip(a),
    decreases a,
{
    if a == 0 {
        assert(s.skip(0) =~= s);
    } else {
        lemma_trim_start_skip(s.drop_first(), a - 1);
        assert(s.drop_first().skip(a - 1) =~= s.skip(a));
    }
}

/// When the bytes from `b` on are whitespace and byte `b - 1` is not,
/// dropping trailing whitespace is keeping `b` bytes.
proof fn lemma_trim_end_take(s: Seq<u8>, b: int)
    requires
        0 <= b <= s.len(),
        forall|j: int| b <= j < s.len() ==> is_ws(s[j]),
        b > 0 ==> !is_ws(s[b - 1]),
    ensures
        trim_end_sp(s) == s.take(b),
    decreases s.len(),
{
    if b == s.len() {
        assert(s.take(b) =~= s);
    } else {
        lemma_trim_end_take(s.drop_last(), b);
        assert(s.drop_last().take(b) =~= s.take(b));
    }
}

/// Whether a byte is ASCII whitespace.
fn is_space(b: u8) -> (r: bool)
    ensures
        r == is_ws(b),
{
    b == 9 || b == 10 || b == 11 || b == 12 || b == 13 || b == 32
}

/// Trims ASCII whitespace from both ends of an input line.
pub fn trim(v: &Vec<u8>) -> (r: Vec<u8>)
    ensures
        r@ == spec_trim(v@),
{
    let n = v.len();
    let mut lo: usize = 0;
    while lo < n && is_space(v[lo])
        invariant
            lo <= n,
            n == v@.len(),
            forall|j: int| 0 <= j < lo ==> is_ws(v@[j]),
        decreases n - lo,
    {
        lo = lo + 1;
    }
    let mut hi: usize = n;
    while hi > lo && is_space(v[hi - 1])
        invariant
            lo <= hi <= n,
            n == v@.len(),
            forall|j: int| 0 <= j < lo ==> is_ws(v@[j]),
            forall|j: int| hi <= j < n ==> is_ws(v@[j]),
        decreases hi,
    {
        hi = hi - 1;
    }
    let r = copy_range(v, lo, hi);
    proof {
        lemma_trim_start_skip(v@, lo as int);
        let mid = v@.skip(lo as int);
        lemma_trim_end_take(mid, hi - lo);
        assert(r@ =~= mid.take(hi - lo));
    }
    r
}

/// An ASCII decimal digit.
pub open spec fn is_digit(b: u8) -> bool {
    48 <= b <= 57
}

/// Every byte is a digit.
pub open spec fn all_digits(s: Seq<u8>) -> bool {
    forall|i: int| 0 <= i < s.len() ==> is_digit(#[trigger] s[i])
}

/// The value of a digit string, most significant first.
pub open spec fn digits_val(s: Seq<u8>) -> int
    decreases s.len(),
{
    if s.len() == 0 {
        0
    } else {
        digits_val(s.drop_last()) * 10 + (s.last() - 48)
    }
}

/// A digit string's value is non-negative and at least the value of any of
/// its prefixes.
proof fn lemma_digits_val_mono(s: Seq<u8>, i: int)
    requires
        all_digits(s),
        0 <= i <= s.len(),
    ensures
        0 <= digits_val(s.take(i)) <= digits_val(s),
    decreases s.len(),
{
    if s.len() == 0 {
        assert(s.take(i) =~= s);
    } else if i == s.len() {
        assert(s.take(i) =~= s);
        lemma_digits_val_mono(s.drop_last(), s.len() - 1);
        assert(s.drop_last().take(s.len() - 1) =~= s.drop_last());
    } else {
        assert(all_digits(s.drop_last())) by {
            assert(forall|j: int|
                0 <= j < s.len() - 1 ==> is_digit(#[trigger] s.drop_last()[j]) == is_digit(s[j]));
        }
        lemma_digits_val_mono(s.drop_last(), i);
        assert(s.drop_last().take(i) =~= s.take(i));
        assert(is_digit(s.last()));
    }
}

/// How `usize` parses a selection: an optional `+`, then one or more
/// decimal digits, rejecting anything else and values beyond `usize`.
pub open spec fn spec_parse_index(s: Seq<u8>) -> Option<int> {
    let d = if s.len() > 0 && s[0] == 43 {
        s.drop_first()
    } else {
        s
    };
    if d.len() > 0 && all_digits(d) && digits_val(d) <= usize::MAX as int {
        Some(digits_val(d))
    } else {
        None
    }
}

/// Parses a trimmed input line as a listing index, exactly as `usize`
/// parsing accepts it.
pub fn parse_index(t: &Vec<u8>) -> (r: Option<usize>)
    ensures
        match r {
            Some(i) => spec_parse_index(t@) == Some(i as int),
            None => spec_parse_index(t@) is None,
        },
{
    let n = t.len();
    let start: usize = if n > 0 && t[0] == 43 {
        1
    } else {
        0
    };
    let ghost d = if t@.len() > 0 && t@[0] == 43 {
        t@.drop_first()
    } else {
        t@
    };
    proof {
        assert(d =~= t@.skip(start as int));
    }
    if start == n {
        proof {
            assert(d.len() == 0);
        }
        return None;
    }
    let mut acc: usize = 0;
    let mut w: usize = start;
    while w < n
        invariant
            start <= w <= n,
            n == t@.len(),
            start <= 1,
            d == t@.skip(start as int),
            d == (if t@.len() > 0 && t@[0] == 43 {
                t@.drop_first()
            } else {
                t@
            }),
            forall|j: int| 0 <= j < w - start ==> is_digit(#[trigger] d[j]),
            acc == digits_val(d.take(w - start)),
        decreases n - w,
    {
        let b = t[w];
        proof {
            assert(d[w - start] == t@[w as int]);
        }
        if b < 48 || b > 57 {
            proof {
                assert(!is_digit(d[w - start]));
                assert(!all_digits(d));
            }
            return None;
        }
        let ghost k = w - start;
        proof {
            assert(d.take(k + 1).drop_last() =~= d.take(k));
            assert(d.take(k + 1).last() == d[k]);
            assert(digits_val(d.take(k + 1)) == acc * 10 + (b - 48));
        }
        if acc > usize::MAX / 10 {
            proof {
                assert(acc * 10 + (b - 48) > usize::MAX as int) by (nonlinear_arith)
                    requires
                        acc > usize::MAX as int / 10,
                        b >= 48,
                ;
                if all_digits(d) {
                    lemma_digits_val_mono(d, k + 1);
                }
            }
            return None;
        }
        let dig: usize = (b - 48) as usize;
        proof {
            assert(acc * 10 <= usize::MAX as int) by (nonlinear_arith)
                requires
                    acc <= usize::MAX as int / 10,
                    acc >= 0,
            ;
        }
        let acc10 = acc * 10;
        if dig > usize::MAX - acc10 {
            proof {
                if all_digits(d) {
                    lemma_digits_val_mono(d, k + 1);
                }
            }
            return None;
        }
        acc = acc10 + dig;
        w = w + 1;
    }
    proof {
        assert(d.take(n - start) =~= d);
        assert(all_digits(d));
        assert(d.len() > 0);
    }
    Some(acc)
}

/// The parent of a slash-normalized path, as the platform's parent rule
/// gives it: the root and the empty path have none; a bare name's parent is
/// the empty path; otherwise everything before the last `/`, keeping the
/// root's slash.
pub open spec fn spec_parent_dir(p: Seq<u8>) -> Option<Seq<u8>> {
    if p.len() == 0 {
        None
    } else if p == seq![SLASH] {
        None
    } else {
        let i = last_pos(p, SLASH);
        if i == -1 {
            Some(Seq::empty())
        } else if i == 0 {
            Some(seq![SLASH])
        } else {
            Some(p.take(i))
        }
    }
}

/// The parent directory of a slash-normalized path, if it has one.
pub fn parent_dir(p: &Vec<u8>) -> (r: Option<Vec<u8>>)
    ensures
        match r {
            Some(q) => spec_parent_dir(p@) == Some(q@),
            None => spec_parent_dir(p@) is None,
        },
{
    let n = p.len();
    if n == 0 {
        return None;
    }
    if n == 1 && p[0] == SLASH {
        proof {
            assert(p@ =~= seq![SLASH]);
        }
        return None;
    }
    proof {
        assert(p@ != seq![SLASH]);
        lemma_last_pos(p@, SLASH);
    }
    match crate::bytes::rfind_byte(p, SLASH) {
        None => {
            let r: Vec<u8> = Vec::new();
            proof {
                assert(r@ =~= Seq::<u8>::empty());
            }
            Some(r)
        },
        Some(i) => {
            if i == 0 {
                let mut r: Vec<u8> = Vec::new();
                r.push(SLASH);
                proof {
                    assert(r@ =~= seq![SLASH]);
                }
                Some(r)
            } else {
                let r = copy_range(p, 0, i);
                proof {
                    assert(r@ =~= p@.take(i as int));
                }
                Some(r)
            }
        },
    }
}

/// Where a rename moves the selected file: nowhere when the trimmed name is
/// empty; to the name itself when it is absolute or the file has no parent
/// component; otherwise beside the file, under the new name.
pub open spec fn spec_rename_target(p: Seq<u8>, raw: Seq<u8>) -> Option<Seq<u8>> {
    let name = spec_trim(raw);
    if name.len() == 0 {
        None
    } else if name[0] == SLASH {
        Some(name)
    } else {
        let i = last_pos(p, SLASH);
        if i == -1 {
            Some(name)
        } else if i == 0 {
            Some(seq![SLASH] + name)
        } else {
            Some(p.take(i) + seq![SLASH] + name)
        }
    }
}

/// Resolves the rename dialog's input against the selected path. `None`
/// means the rename is skipped entirely.
pub fn rename_target(p: &Vec<u8>, raw: &Vec<u8>) -> (r: Option<Vec<u8>>)
    ensures
        match r {
            Some(q) => spec_rename_target(p@, raw@) == Some(q@),
            None => spec_rename_target(p@, raw@) is None,
        },
{
    let name = trim(raw);
    if name.len() == 0 {
        return None;
    }
    if name[0] == SLASH {
        return Some(name);
    }
    proof {
        lemma_last_pos(p@, SLASH);
    }
    match crate::bytes::rfind_byte(p, SLASH) {
        None => Some(name),
        Some(i) => {
            let mut r: Vec<u8> = if i == 0 {
                Vec::new()
            } else {
                copy_range(p, 0, i)
            };
            r.push(SLASH);
            push_all(&mut r, &name);
            proof {
                if i == 0 {
                    assert(r@ =~= seq![SLASH] + name@);
                } else {
                    assert(r@ =~= p@.take(i as int) + seq![SLASH] + name@);
                }
            }
            Some(r)
        },
    }
}

/// Whether the delete confirmation succeeds: exactly the single letter `s`,
/// case-insensitively, which over bytes is `s` or `S`.
pub fn confirms_delete(input: &Vec<u8>) -> (r: bool)
    ensures
        r == (spec_trim(input@) == seq![115u8] || spec_trim(input@) == seq![83u8]),
{
    let t = trim(input);
    if t.len() == 1 && (t[0] == 115 || t[0] == 83) {
        proof {
            if t@[0] == 115 {
                assert(t@ =~= seq![115u8]);
            } else {
                assert(t@ =~= seq![83u8]);
            }
        }
        true
    } else {
        proof {
            assert(t@ != seq![115u8] && t@ != seq![83u8]);
        }
        false
    }
}

/// The choice made in the per-file dialog.
#[derive(PartialEq, Eq, Clone, Copy, Debug)]
pub enum DialogChoice {
    Open,
    Rename,
    Delete,
    Cancel,
}

/// Reads the dialog input: empty opens, `--r` renames, `--d` deletes,
/// anything else cancels.
pub fn parse_dialog(cmd: &Vec<u8>) -> (c: DialogChoice)
    ensures
        ({
            let t = spec_trim(cmd@);
            &&& (t.len() == 0 ==> c == DialogChoice::Open)
            &&& (t == rename_cmd() ==> c == DialogChoice::Rename)
            &&& (t == delete_cmd() ==> c == DialogChoice::Delete)
            &&& (t.len() != 0 && t != rename_cmd() && t != delete_cmd() ==> c
                == DialogChoice::Cancel)
        }),
{
    let t = trim(cmd);
    if t.len() == 0 {
        return DialogChoice::Open;
    }
    if t.len() == 3 && t[0] == 45 && t[1] == 45 && t[2] == 114 {
        proof {
            assert(t@ =~= rename_cmd());
        }
        return DialogChoice::Rename;
    }
    if t.len() == 3 && t[0] == 45 && t[1] == 45 && t[2] == 100 {
        proof {
            assert(t@ =~= delete_cmd());
        }
        return DialogChoice::Delete;
    }
    proof {
        assert(t@ != rename_cmd() && t@ != delete_cmd());
    }
    DialogChoice::Cancel
}

/// What persists across loop iterations: the current directory.
pub struct BrowserState {
    pub dir: Vec<u8>,
}

impl View for BrowserState {
    type V = Seq<u8>;

    open spec fn view(&self) -> Seq<u8> {
        self.dir@
    }
}

/// What the loop does after one listing-prompt input.
#[derive(PartialEq, Eq, Debug)]
pub enum StepEffect {
    /// `q`: leave the loop.
    Quit,
    /// Show the listing again, after whichever directory change applied.
    Redraw,
    /// A text candidate was selected: enter the per-file dialog for it.
    FileDialog(Vec<u8>),
}

/// Whether the effect opens the per-file dialog on exactly this path.
pub open spec fn opens_dialog_on(eff: StepEffect, path: Seq<u8>) -> bool {
    match eff {
        StepEffect::FileDialog(p) => p@ == path,
        _ => false,
    }
}

/// One step of the Listing state: resolves the input line against the
/// listing and moves the current directory accordingly. Inputs that parse to
/// no index, or to an index out of range, change nothing; index 0 goes to
/// the parent (staying put at the root); a directory index enters it; a text
/// candidate's index opens its dialog; any other entry's index is a no-op.
pub fn step_listing(state: &mut BrowserState, entries: &Vec<Entry>, input: &Vec<u8>) -> (eff:
    StepEffect)
    ensures
        ({
            let t = spec_trim(input@);
            let sel = spec_parse_index(t);
            let quit = t == quit_cmd();
            &&& (quit ==> eff == StepEffect::Quit && final(state)@ == old(state)@)
            &&& (!quit && sel is None ==> eff == StepEffect::Redraw && final(state)@ == old(
                state,
            )@)
            &&& (!quit && sel is Some ==> ({
                let i = sel.unwrap();
                &&& (i >= entries@.len() ==> eff == StepEffect::Redraw && final(state)@ == old(
                    state,
                )@)
                &&& (i == 0 && 0 < entries@.len() ==> eff == StepEffect::Redraw && final(state)@
                    == (match spec_parent_dir(old(state)@) {
                    Some(p) => p,
                    None => old(state)@,
                }))
                &&& (0 < i < entries@.len() && entries@[i]@.1 ==> eff == StepEffect::Redraw
                    && final(state)@ == entries@[i]@.0)
                &&& (0 < i < entries@.len() && !entries@[i]@.1 && spec_is_text(entries@[i]@.0)
                    ==> final(state)@ == old(state)@ && opens_dialog_on(eff, entries@[i]@.0))
                &&& (0 < i < entries@.len() && !entries@[i]@.1 && !spec_is_text(entries@[i]@.0)
                    ==> eff == StepEffect::Redraw && final(state)@ == old(state)@)
            }))
        }),
{
    let t = trim(input);
    if t.len() == 1 && t[0] == 113 {
        proof {
            assert(t@ =~= quit_cmd());
        }
        return StepEffect::Quit;
    }
    proof {
        assert(t@ != quit_cmd());
    }
    let sel = parse_index(&t);
    match sel {
        None => StepEffect::Redraw,
        Some(i) => {
            if i >= entries.len() {
                StepEffect::Redraw
            } else if i == 0 {
                match parent_dir(&state.dir) {
                    Some(p) => {
                        state.dir = p;
                    },
                    None => {},
                }
                StepEffect::Redraw
            } else {
                let e = &entries[i];
                if e.is_dir {
                    state.dir = copy_range(&e.path, 0, e.path.len());
                    proof {
                        assert(state@ =~= entries@[i as int]@.0);
                    }
                    StepEffect::Redraw
                } else if is_text_file(&e.path) {
                    let p = copy_range(&e.path, 0, e.path.len());
                    proof {
                        assert(p@ =~= entries@[i as int]@.0);
                    }
                    StepEffect::FileDialog(p)
                } else {
                    StepEffect::Redraw
                }
            }
        },
    }
}

} // verus!
