//! Why the order in which a batch of edits is handed in does not matter, and
//! what an edit leaves alone.

use crate::file_change::{
    applied_all, apply_order, lemma_slot, lemma_written_is_plain, slot, ChangeKind, FileChangeView,
};
use crate::text::{
    lemma_lines_hold_no_feed, lemma_lines_of_joined, lines_of, plain_line, plain_lines,
};
use vstd::multiset::Multiset;
use vstd::prelude::*;
use vstd::seq_lib::{
    to_multiset_build, to_multiset_contains, to_multiset_insert, to_multiset_len,
    to_multiset_remove,
};

verus! {

/// What an edit does to a text: its kind, its line and, unless it deletes,
/// the line it writes.
pub struct Effect {
    pub kind: ChangeKind,
    pub line: usize,
    pub written: Seq<char>,
}

impl Effect {
    /// Whether `self` is applied before `other` whatever order they were
    /// handed in.
    pub open spec fn comes_before(self, other: Effect) -> bool {
        self.line > other.line || (self.line == other.line && self.kind != ChangeKind::Added
            && other.kind == ChangeKind::Added)
    }

    /// Whether neither of the two is applied before the other by rule: they
    /// stand on one line and both add or both do not.
    pub open spec fn ties_with(self, other: Effect) -> bool {
        !self.comes_before(other) && !other.comes_before(self)
    }

    /// The lines after the edit.
    pub open spec fn edited(self, lines: Seq<Seq<char>>) -> Seq<Seq<char>> {
        if 1 <= self.line <= lines.len() {
            match self.kind {
                ChangeKind::Deleted => lines.remove(self.line - 1),
                ChangeKind::Added => lines.insert(self.line - 1, self.written),
                ChangeKind::Updated => lines.update(self.line - 1, self.written),
            }
        } else {
            lines
        }
    }
}

/// The effect of an edit.
pub open spec fn effect_of(change: FileChangeView) -> Effect {
    Effect {
        kind: change.kind,
        line: change.line(),
        written: if change.kind == ChangeKind::Deleted {
            Seq::empty()
        } else {
            change.written()
        },
    }
}

/// The effects of a batch, edit by edit.
pub open spec fn effects(changes: Seq<FileChangeView>) -> Seq<Effect> {
    Seq::new(changes.len(), |i: int| effect_of(changes[i]))
}

/// Whether no effect stands behind one that it comes before.
pub open spec fn in_order(es: Seq<Effect>) -> bool {
    forall|i: int, j: int|
        0 <= i < j < es.len() ==> !(#[trigger] es[j]).comes_before(#[trigger] es[i])
}

/// Whether effects that tie are the same effect.
pub open spec fn ties_agree(m: Multiset<Effect>) -> bool {
    forall|x: Effect, y: Effect|
        m.count(x) > 0 && m.count(y) > 0 && #[trigger] x.ties_with(y) ==> x == y
}

/// An edit does to the lines what its effect does.
pub proof fn lemma_effect_edits(change: FileChangeView, lines: Seq<Seq<char>>)
    ensures
        change.edited(lines) == effect_of(change).edited(lines),
{
}

/// The edits of an apply order stand in order.
pub proof fn lemma_apply_order_in_order(changes: Seq<FileChangeView>)
    ensures
        in_order(effects(apply_order(changes))),
        apply_order(changes).len() == changes.len(),
    decreases changes.len(),
{
    if changes.len() > 0 {
        let x = changes.last();
        let o = apply_order(changes.drop_last());
        lemma_apply_order_in_order(changes.drop_last());
        lemma_slot(o, x, 0);
        let p = slot(o, x, 0);
        let n = o.insert(p, x);
        let eo = effects(o);
        let en = effects(n);
        assert forall|i: int, j: int| 0 <= i < j < en.len() implies !(#[trigger] en[j]).comes_before(
            #[trigger] en[i],
        ) by {
            let oi = if i < p {
                i
            } else {
                i - 1
            };
            let oj = if j < p {
                j
            } else {
                j - 1
            };
            if i != p && j != p {
                assert(en[i] == eo[oi]);
                assert(en[j] == eo[oj]);
                assert(!eo[oj].comes_before(eo[oi]));
            } else if i == p {
                assert(en[j] == eo[oj]);
                assert(en[i] == effect_of(x));
                assert(!o[p].comes_before(x));
                if oj > p {
                    assert(!eo[oj].comes_before(eo[p]));
                }
            } else {
                assert(en[i] == eo[oi]);
                assert(o[i].comes_before(x));
            }
        }
    }
}

/// An apply order holds the effects of its batch, each as often.
pub proof fn lemma_apply_order_keeps_effects(changes: Seq<FileChangeView>)
    ensures
        effects(apply_order(changes)).to_multiset() == effects(changes).to_multiset(),
    decreases changes.len(),
{
    if changes.len() == 0 {
        assert(effects(apply_order(changes)) =~= effects(changes));
    } else {
        let x = changes.last();
        let o = apply_order(changes.drop_last());
        lemma_apply_order_keeps_effects(changes.drop_last());
        lemma_slot(o, x, 0);
        let p = slot(o, x, 0);
        assert(effects(o.insert(p, x)) =~= effects(o).insert(p, effect_of(x)));
        assert(effects(changes) =~= effects(changes.drop_last()).push(effect_of(x)));
        to_multiset_insert(effects(o), p, effect_of(x));
        to_multiset_build(effects(changes.drop_last()), effect_of(x));
    }
}

/// Two lists of effects that stand in order and hold the same effects, each
/// as often, are one list, if effects that tie are the same effect.
pub proof fn lemma_order_decides(e1: Seq<Effect>, e2: Seq<Effect>)
    requires
        in_order(e1),
        in_order(e2),
        e1.to_multiset() == e2.to_multiset(),
        ties_agree(e1.to_multiset()),
    ensures
        e1 == e2,
    decreases e1.len(),
{
    broadcast use vstd::multiset::group_multiset_axioms;

    to_multiset_len(e1);
    to_multiset_len(e2);
    if e1.len() == 0 {
        assert(e1 =~= e2);
    } else {
        let x = e1[0];
        let y = e2[0];
        let m = e1.to_multiset();
        to_multiset_contains(e1, x);
        to_multiset_contains(e1, y);
        to_multiset_contains(e2, x);
        to_multiset_contains(e2, y);
        assert(e1.contains(x));
        assert(e2.contains(y));
        let j = choose|j: int| 0 <= j < e1.len() && e1[j] == y;
        let k = choose|k: int| 0 <= k < e2.len() && e2[k] == x;
        assert(!y.comes_before(x)) by {
            if j > 0 {
                assert(!e1[j].comes_before(e1[0]));
            }
        }
        assert(!x.comes_before(y)) by {
            if k > 0 {
                assert(!e2[k].comes_before(e2[0]));
            }
        }
        assert(x.ties_with(y));
        assert(x == y);
        let t1 = e1.remove(0);
        let t2 = e2.remove(0);
        to_multiset_remove(e1, 0);
        to_multiset_remove(e2, 0);
        assert(in_order(t1)) by {
            assert forall|a: int, b: int| 0 <= a < b < t1.len() implies !(#[trigger] t1[b]).comes_before(
                #[trigger] t1[a],
            ) by {
                assert(t1[a] == e1[a + 1]);
                assert(t1[b] == e1[b + 1]);
            }
        }
        assert(in_order(t2)) by {
            assert forall|a: int, b: int| 0 <= a < b < t2.len() implies !(#[trigger] t2[b]).comes_before(
                #[trigger] t2[a],
            ) by {
                assert(t2[a] == e2[a + 1]);
                assert(t2[b] == e2[b + 1]);
            }
        }
        assert(ties_agree(t1.to_multiset())) by {
            assert forall|u: Effect, v: Effect|
                t1.to_multiset().count(u) > 0 && t1.to_multiset().count(v) > 0
                    && #[trigger] u.ties_with(v) implies u == v by {
                assert(m.count(u) > 0);
                assert(m.count(v) > 0);
            }
        }
        lemma_order_decides(t1, t2);
        assert(e1 =~= seq![x] + t1);
        assert(e2 =~= seq![y] + t2);
    }
}

/// Edits with the same effects, one after the other, give the same text.
pub proof fn lemma_effects_decide(o1: Seq<FileChangeView>, o2: Seq<FileChangeView>, text: Seq<char>)
    requires
        effects(o1) == effects(o2),
    ensures
        applied_all(o1, text) == applied_all(o2, text),
    decreases o1.len(),
{
    assert(effects(o1).len() == o1.len());
    assert(effects(o2).len() == o2.len());
    if o1.len() > 0 {
        assert(effects(o1)[0] == effect_of(o1[0]));
        assert(effects(o2)[0] == effect_of(o2[0]));
        lemma_effect_edits(o1[0], lines_of(text));
        lemma_effect_edits(o2[0], lines_of(text));
        assert(effects(o1.drop_first()) =~= effects(o1).drop_first());
        assert(effects(o2.drop_first()) =~= effects(o2).drop_first());
        lemma_effects_decide(o1.drop_first(), o2.drop_first(), o1[0].applied(text));
    }
}

/// Batches that hold the same edits, each as often, hold the same effects,
/// each as often.
pub proof fn lemma_same_edits_same_effects(a: Seq<FileChangeView>, b: Seq<FileChangeView>)
    requires
        a.to_multiset() == b.to_multiset(),
    ensures
        effects(a).to_multiset() == effects(b).to_multiset(),
    decreases a.len(),
{
    broadcast use vstd::multiset::group_multiset_axioms;

    to_multiset_len(a);
    to_multiset_len(b);
    if a.len() == 0 {
        assert(effects(a) =~= effects(b));
    } else {
        let x = a.last();
        let last = a.len() - 1;
        to_multiset_contains(a, x);
        to_multiset_contains(b, x);
        assert(a[last] == x);
        assert(a.contains(x));
        let j = choose|j: int| 0 <= j < b.len() && b[j] == x;
        let a1 = a.remove(last);
        let b1 = b.remove(j);
        to_multiset_remove(a, last);
        to_multiset_remove(b, j);
        lemma_same_edits_same_effects(a1, b1);
        assert(effects(a1) =~= effects(a).remove(last));
        assert(effects(b1) =~= effects(b).remove(j));
        to_multiset_remove(effects(a), last);
        to_multiset_remove(effects(b), j);
        let e = effect_of(x);
        to_multiset_contains(effects(a), e);
        to_multiset_contains(effects(b), e);
        assert(effects(a)[last] == e);
        assert(effects(b)[j] == e);
        assert(effects(a).contains(e));
        assert(effects(b).contains(e));
        assert(effects(a).to_multiset() =~= effects(a1).to_multiset().insert(e));
        assert(effects(b).to_multiset() =~= effects(b1).to_multiset().insert(e));
    }
}

/// Two batches with the same effects, each as often, give the same text,
/// provided that effects which tie are the same effect: that no line has two
/// different additions, nor two different edits of the other kinds.
pub proof fn lemma_effects_in_any_order(
    a: Seq<FileChangeView>,
    b: Seq<FileChangeView>,
    text: Seq<char>,
)
    requires
        effects(a).to_multiset() == effects(b).to_multiset(),
        ties_agree(effects(a).to_multiset()),
    ensures
        applied_all(apply_order(a), text) == applied_all(apply_order(b), text),
{
    lemma_apply_order_in_order(a);
    lemma_apply_order_in_order(b);
    lemma_apply_order_keeps_effects(a);
    lemma_apply_order_keeps_effects(b);
    lemma_order_decides(effects(apply_order(a)), effects(apply_order(b)));
    lemma_effects_decide(apply_order(a), apply_order(b), text);
}

/// A batch gives the same text in whatever order its edits are handed in,
/// provided that effects which tie are the same effect: that no line has two
/// different additions, nor two different edits of the other kinds.
pub proof fn lemma_order_handed_in_is_irrelevant(
    a: Seq<FileChangeView>,
    b: Seq<FileChangeView>,
    text: Seq<char>,
)
    requires
        a.to_multiset() == b.to_multiset(),
        ties_agree(effects(a).to_multiset()),
    ensures
        applied_all(apply_order(a), text) == applied_all(apply_order(b), text),
{
    lemma_same_edits_same_effects(a, b);
    lemma_effects_in_any_order(a, b, text);
}

/// An edit leaves every line above its own as it is, and every line below
/// its own as it is but for the place: one up after a deletion, one down
/// after an addition. An update changes no line but its own.
pub proof fn lemma_other_lines_stay(change: FileChangeView, lines: Seq<Seq<char>>, i: int)
    requires
        0 <= i < lines.len(),
        i != change.line() - 1,
    ensures
        ({
            let after = change.edited(lines);
            if !change.hits(lines.len()) || i < change.line() - 1 {
                after[i] == lines[i]
            } else {
                match change.kind {
                    ChangeKind::Deleted => after[i - 1] == lines[i],
                    ChangeKind::Added => after[i + 1] == lines[i],
                    ChangeKind::Updated => after[i] == lines[i],
                }
            }
        }),
        change.kind == ChangeKind::Updated ==> change.edited(lines).len() == lines.len()
            && change.edited(lines)[i] == lines[i],
{
}

/// The line that a fixup moves a record to is the line on which the
/// record's text stands after the edit. This holds of every line but the
/// edited one, and of that one too where the edit adds.
pub proof fn lemma_fixup_follows_line(change: FileChangeView, lines: Seq<Seq<char>>, line: usize)
    requires
        change.line() >= 1,
        1 <= line <= lines.len(),
        line != change.line() || change.kind == ChangeKind::Added,
    ensures
        1 <= change.moved(line) <= change.edited(lines).len(),
        change.edited(lines)[change.moved(line) - 1] == lines[line - 1],
{
}

/// Whether no line of the text ends in a carriage return of its own, one
/// that is not part of the line's end.
pub open spec fn no_stray_returns(text: Seq<char>) -> bool {
    forall|i: int|
        0 <= i < lines_of(text).len() && (#[trigger] lines_of(text)[i]).len() > 0 ==> lines_of(
            text,
        )[i].last() != '\r'
}

/// The text after an edit splits into the lines before the edit, edited:
/// reading the text again finds every other line as it was. This needs a
/// text without stray carriage returns.
pub proof fn lemma_edited_text_lines(change: FileChangeView, text: Seq<char>)
    requires
        no_stray_returns(text),
        change.clock.wf(),
    ensures
        lines_of(change.applied(text)) == change.edited(lines_of(text)),
{
    lemma_written_is_plain(change);
    let lines = lines_of(text);
    lemma_lines_hold_no_feed(text, 0);
    assert(plain_lines(lines)) by {
        assert forall|i: int| 0 <= i < lines.len() implies plain_line(#[trigger] lines[i]) by {
            assert forall|k: int| 0 <= k < lines[i].len() implies lines[i][k] != '\n' by {
                assert(lines[i][k] != '\n');
            }
        }
    }
    let after = change.edited(lines);
    assert(plain_lines(after)) by {
        assert forall|i: int| 0 <= i < after.len() implies plain_line(#[trigger] after[i]) by {
            if change.hits(lines.len()) {
                let at = change.line() - 1;
                match change.kind {
                    ChangeKind::Deleted => {
                        if i < at {
                            assert(after[i] == lines[i]);
                        } else {
                            assert(after[i] == lines[i + 1]);
                        }
                    },
                    ChangeKind::Added => {
                        if i < at {
                            assert(after[i] == lines[i]);
                        } else if i > at {
                            assert(after[i] == lines[i - 1]);
                        }
                    },
                    ChangeKind::Updated => {
                        if i != at {
                            assert(after[i] == lines[i]);
                        }
                    },
                }
            } else {
                assert(after[i] == lines[i]);
            }
        }
    }
    lemma_lines_of_joined(after);
}

/// After an update the text has as many lines as before, and every line
/// but the updated one is the line it was.
pub proof fn lemma_update_in_place(change: FileChangeView, text: Seq<char>, i: int)
    requires
        change.kind == ChangeKind::Updated,
        no_stray_returns(text),
        change.clock.wf(),
        0 <= i < lines_of(text).len(),
        i != change.line() - 1,
    ensures
        lines_of(change.applied(text)).len() == lines_of(text).len(),
        lines_of(change.applied(text))[i] == lines_of(text)[i],
{
    lemma_edited_text_lines(change, text);
}

} // verus!
