//! Changes of the text of an open file.
use vstd::prelude::*;

use crate::strings::{chars_of, text_between};
use crate::text::{index_at, position_to_index, Range};

verus! {

/// A change of a text: a stretch of it, or without a range all of it, gives way
/// to a new text.
#[derive(Debug, Clone)]
pub struct TextDocumentContentChangeEvent {
    pub range: Option<Range>,
    pub text: String,
}

#[verifier::ext_equal]
pub ghost struct ChangeView {
    pub range: Option<Range>,
    pub text: Seq<char>,
}

impl View for TextDocumentContentChangeEvent {
    type V = ChangeView;

    open spec fn view(&self) -> ChangeView {
        ChangeView { range: self.range, text: self.text@ }
    }
}

pub open spec fn change_views(s: Seq<TextDocumentContentChangeEvent>) -> Seq<ChangeView> {
    Seq::new(s.len(), |i: int| s[i]@)
}

/// The stretch that a range covers. A start that is out of bounds stands for the
/// start of the text, such an end for its end.
pub open spec fn covered(s: Seq<char>, range: Range) -> (int, int) {
    (
        match index_at(s, range.start) {
            Some(i) => i,
            None => 0,
        },
        match index_at(s, range.end) {
            Some(i) => i,
            None => s.len() as int,
        },
    )
}

/// The range of a change does not run backwards.
pub open spec fn fits(s: Seq<char>, c: ChangeView) -> bool {
    c.range matches Some(range) ==> covered(s, range).0 <= covered(s, range).1
}

/// A text after a change.
pub open spec fn after_change(s: Seq<char>, c: ChangeView) -> Seq<char> {
    match c.range {
        Some(range) => s.take(covered(s, range).0) + c.text + s.skip(covered(s, range).1),
        None => c.text,
    }
}

/// A text after the first `k` of some changes, each relative to the text that the
/// ones before it left.
pub open spec fn after_changes(s: Seq<char>, changes: Seq<ChangeView>, k: int) -> Seq<char>
    decreases k,
{
    if 0 < k <= changes.len() {
        after_change(after_changes(s, changes, k - 1), changes[k - 1])
    } else {
        s
    }
}

/// Every change fits the text that the ones before it left.
pub open spec fn all_fit(s: Seq<char>, changes: Seq<ChangeView>) -> bool {
    forall|k: int|
        0 <= k < changes.len() ==> fits(after_changes(s, changes, k), #[trigger] changes[k])
}

/// The text after a change; none where the range of the change runs backwards.
pub fn apply_change(text: &str, change: &TextDocumentContentChangeEvent) -> (r: Option<String>)
    ensures
        r is Some <==> fits(text@, change@),
        r matches Some(t) ==> t@ == after_change(text@, change@),
{
    let range = match &change.range {
        Some(range) => *range,
        None => {
            return Some(change.text.clone());
        },
    };
    let chars = chars_of(text);
    let start = match position_to_index(&chars, range.start) {
        Some(i) => i,
        None => 0,
    };
    let end = match position_to_index(&chars, range.end) {
        Some(i) => i,
        None => chars.len(),
    };
    if start > end {
        return None;
    }
    let mut out = text_between(&chars, 0, start);
    assert(out@ =~= text@.take(start as int));
    out.append(&change.text);
    let tail = text_between(&chars, end, chars.len());
    assert(tail@ =~= text@.skip(end as int));
    out.append(&tail);
    Some(out)
}

/// Apply a list of (possibly incremental) LSP content-change events to `text`
/// in sequence. Each change's positions are relative to the text after all
/// previous changes have been applied.
pub fn apply_incremental_changes(text: String, changes: Vec<TextDocumentContentChangeEvent>) -> (r:
    String)
    requires
        all_fit(text@, change_views(changes@)),
    ensures
        r@ == after_changes(text@, change_views(changes@), changes@.len() as int),
{
    let ghost cs = change_views(changes@);
    let mut out = text.clone();
    let mut k: usize = 0;
    while k < changes.len()
        invariant
            k <= changes@.len(),
            cs == change_views(changes@),
            all_fit(text@, cs),
            out@ == after_changes(text@, cs, k as int),
        decreases changes@.len() - k,
    {
        assert(cs[k as int] == changes@[k as int]@);
        match apply_change(&out, &changes[k]) {
            Some(t) => {
                out = t;
            },
            None => {
                assert(false);
            },
        }
        k = k + 1;
    }
    out
}

// ── Laws ────────────────────────────────────────────────────────────────────

/// Changes in two lots are the changes of both lots, one after the other.
pub proof fn changes_in_sequence(s: Seq<char>, a: Seq<ChangeView>, b: Seq<ChangeView>)
    ensures
        after_changes(s, a + b, (a + b).len() as int) == after_changes(
            after_changes(s, a, a.len() as int),
            b,
            b.len() as int,
        ),
{
    prefix_changes(s, a, b, a.len() as int);
    later_changes(s, a, b, b.len() as int);
}

proof fn prefix_changes(s: Seq<char>, a: Seq<ChangeView>, b: Seq<ChangeView>, k: int)
    requires
        0 <= k <= a.len(),
    ensures
        after_changes(s, a + b, k) == after_changes(s, a, k),
    decreases k,
{
    if k > 0 {
        prefix_changes(s, a, b, k - 1);
        assert((a + b)[k - 1] == a[k - 1]);
    }
}

proof fn later_changes(s: Seq<char>, a: Seq<ChangeView>, b: Seq<ChangeView>, k: int)
    requires
        0 <= k <= b.len(),
    ensures
        after_changes(s, a + b, a.len() + k) == after_changes(
            after_changes(s, a, a.len() as int),
            b,
            k,
        ),
    decreases k,
{
    if k > 0 {
        later_changes(s, a, b, k - 1);
        assert((a + b)[a.len() + k - 1] == b[k - 1]);
    } else {
        prefix_changes(s, a, b, a.len() as int);
    }
}

} // verus!
