use crate::data_structure::finger_tree::{
    is_measure_pred, lemma_measure_concat, lemma_measure_empty, lemma_measure_single, measure_of,
    pred_fails, pred_holds, refs_extend, unbounded, Chunk, FingerTree, FingerTreeRefs, Value,
};
use crate::traits::monoid::Size;
use vstd::prelude::*;

verus! {

/// One command of a text editor with undo.
pub enum Command {
    /// Types a character at the end of the text.
    Type(u8),
    /// Goes back to the text as it was this many commands ago; undoing counts as a command.
    Undo(usize),
    /// Asks for the character at this position, counting from one.
    Query(usize),
}

/// The bytes of a text.
pub open spec fn text_bytes(s: Seq<Value<u8>>) -> Seq<u8> {
    s.map_values(|v: Value<u8>| v.0)
}

/// The texts of a history, newest first, as the bytes each holds in `texts`.
pub open spec fn history_texts<const N: usize, Rf: Copy, R: FingerTreeRefs<Chunk<Value<u8>, N>, Rf>>(
    history: Seq<Value<FingerTree<Value<u8>, N, Rf>>>,
    texts: R,
) -> Seq<Seq<u8>> {
    history.map_values(|t: Value<FingerTree<Value<u8>, N, Rf>>| text_bytes(t.0.view_in(texts)))
}

/// Every text of a history is a well-formed tree of `texts`.
pub open spec fn history_ok<const N: usize, Rf: Copy, R: FingerTreeRefs<Chunk<Value<u8>, N>, Rf>>(
    history: Seq<Value<FingerTree<Value<u8>, N, Rf>>>,
    texts: R,
) -> bool {
    forall|i: int| 0 <= i < history.len() ==> #[trigger] history[i].0.wf_in(texts)
}

/// The measure of a sequence of values is its length, when that fits in a `usize`.
pub proof fn lemma_count_measure<T: crate::data_structure::ref_store::Duplicate>(s: Seq<Value<T>>)
    requires
        s.len() <= usize::MAX,
    ensures
        measure_of(s) == Size(s.len() as usize),
    decreases s.len(),
{
    if s.len() == 0 {
        lemma_measure_empty::<Value<T>>();
    } else {
        let init = s.drop_last();
        lemma_count_measure(init);
        assert(init.push(s.last()) =~= s);
        assert(init + seq![s.last()] =~= s);
        lemma_measure_concat(init, seq![s.last()]);
        lemma_measure_single(s.last());
    }
}

/// Splitting values at the first place where their count exceeds `k` puts exactly `k`
/// values before the one it stops at.
pub proof fn lemma_split_by_count<T: crate::data_structure::ref_store::Duplicate, F: Fn(&Size) -> bool>(
    front: Seq<Value<T>>,
    x: Value<T>,
    k: usize,
    pred: F,
)
    requires
        front.len() < usize::MAX,
        forall|m: Size, b: bool| #[trigger] pred.ensures((&m,), b) ==> b == (m.0 > k),
        pred_holds(pred, measure_of(front.push(x))),
        front.len() > 0 ==> pred_fails(pred, measure_of(front)),
    ensures
        front.len() == k,
{
    lemma_count_measure(front.push(x));
    lemma_count_measure(front);
}

/// Runs one command on an editor's history: `history` holds the texts, newest first, in
/// the store `hrefs`, and the texts hold their characters in `trefs`. Typing adds the newest
/// text, one character longer; undoing `k` adds again the text of `k` commands ago; a query
/// answers with a character of the newest text and changes nothing.
pub fn typing_step<const N: usize, Rf: Copy, Hf: Copy, T: FingerTreeRefs<Chunk<Value<u8>, N>, Rf>, H: FingerTreeRefs<Chunk<Value<FingerTree<Value<u8>, N, Rf>>, 1>, Hf>>(
    history: &mut FingerTree<Value<FingerTree<Value<u8>, N, Rf>>, 1, Hf>,
    hrefs: &mut H,
    trefs: &mut T,
    command: Command,
) -> (r: Option<u8>)
    requires
        N > 0,
        old(history).wf_in(*old(hrefs)),
        unbounded::<Chunk<Value<FingerTree<Value<u8>, N, Rf>>, 1>, Hf, H>(*old(hrefs)),
        unbounded::<Chunk<Value<u8>, N>, Rf, T>(*old(trefs)),
        old(history).view_in(*old(hrefs)).len() > 0,
        old(history).view_in(*old(hrefs)).len() < usize::MAX,
        history_ok(old(history).view_in(*old(hrefs)), *old(trefs)),
        old(history).view_in(*old(hrefs))[0].0.view_in(*old(trefs)).len() < usize::MAX,
        command matches Command::Undo(k) ==> k < old(history).view_in(*old(hrefs)).len(),
        command matches Command::Query(k) ==> 1 <= k <= old(history).view_in(*old(hrefs))[0].0.view_in(*old(trefs)).len(),
    ensures
        final(history).wf_in(*final(hrefs)),
        unbounded::<Chunk<Value<FingerTree<Value<u8>, N, Rf>>, 1>, Hf, H>(*final(hrefs)),
        unbounded::<Chunk<Value<u8>, N>, Rf, T>(*final(trefs)),
        history_ok(final(history).view_in(*final(hrefs)), *final(trefs)),
        ({
            let old_texts = history_texts(old(history).view_in(*old(hrefs)), *old(trefs));
            let new_texts = history_texts(final(history).view_in(*final(hrefs)), *final(trefs));
            match command {
                Command::Type(c) => r is None && new_texts == seq![old_texts[0].push(c)] + old_texts,
                Command::Undo(k) => r is None && new_texts == seq![old_texts[k as int]] + old_texts,
                Command::Query(k) => r == Some(old_texts[0][k - 1]) && new_texts == old_texts,
            }
        }),
{
    let ghost h0 = history.view_in(*hrefs);
    let ghost t0 = *trefs;
    let ghost texts0 = history_texts(h0, t0);
    match command {
        Command::Type(c) => {
            let last = history.front(hrefs).unwrap();
            proof {
                assert(history_ok(h0, t0));
                assert(last.0.wf_in(t0));
            }
            let text = last.0.into_push_back(trefs, Value(c));
            let ghost t1 = *trefs;
            history.push_front_mut(hrefs, Value(text));
            proof {
                let h1 = history.view_in(*hrefs);
                assert(h1 == seq![Value(text)] + h0);
                assert forall|i: int| 0 <= i < h0.len() implies #[trigger] h0[i].0.wf_in(t1)
                    && h0[i].0.view_in(t1) == h0[i].0.view_in(t0) by {
                    h0[i].0.lemma_extends(t0, t1);
                }
                assert forall|i: int| 0 <= i < h1.len() implies #[trigger] h1[i].0.wf_in(t1) by {
                    if i > 0 {
                        assert(h1[i] == h0[i - 1]);
                    }
                }
                let new_texts = history_texts(h1, t1);
                assert(text_bytes(text.view_in(t1)) =~= texts0[0].push(c));
                assert forall|i: int| 0 <= i < new_texts.len() implies #[trigger] new_texts[i] == (seq![texts0[0].push(c)] + texts0)[i] by {
                    if i > 0 {
                        assert(h1[i] == h0[i - 1]);
                        assert(h0[i - 1].0.wf_in(t1));
                        assert(new_texts[i] == texts0[i - 1]);
                    } else {
                        assert(h1[0] == Value(text));
                    }
                }
                assert(new_texts =~= seq![texts0[0].push(c)] + texts0);
            }
            None
        },
        Command::Undo(k) => {
            let pred = |m: &Size| -> (b: bool)
                ensures
                    b == (m.0 > k),
                { m.0 > k };
            proof {
                lemma_count_measure(h0);
            }
            let split = history.split(hrefs, pred);
            let ghost hr1 = *hrefs;
            let (front, status, back) = split.unwrap();
            proof {
                lemma_split_by_count(front.view_in(hr1), status, k, pred);
                assert(h0[k as int] == status);
            }
            history.push_front_mut(hrefs, status);
            proof {
                let h1 = history.view_in(*hrefs);
                assert(h1 == seq![status] + h0);
                assert forall|i: int| 0 <= i < h1.len() implies #[trigger] h1[i].0.wf_in(t0) by {
                    if i > 0 {
                        assert(h1[i] == h0[i - 1]);
                    } else {
                        assert(h1[0] == h0[k as int]);
                    }
                }
                let new_texts = history_texts(h1, t0);
                assert forall|i: int| 0 <= i < new_texts.len() implies #[trigger] new_texts[i] == (seq![texts0[k as int]] + texts0)[i] by {
                    if i > 0 {
                        assert(h1[i] == h0[i - 1]);
                    }
                }
                assert(new_texts =~= seq![texts0[k as int]] + texts0);
            }
            None
        },
        Command::Query(k) => {
            let current = history.front(hrefs).unwrap();
            proof {
                assert(history_ok(h0, t0));
                assert(current.0.wf_in(t0));
            }
            let before = k - 1;
            let pred = |m: &Size| -> (b: bool)
                ensures
                    b == (m.0 > before),
                { m.0 > before };
            proof {
                lemma_count_measure(current.0.view_in(t0));
            }
            let split = current.0.split(trefs, pred);
            let ghost t1 = *trefs;
            let (front, value, back) = split.unwrap();
            proof {
                lemma_split_by_count(front.view_in(t1), value, before, pred);
                assert(current.0.view_in(t0)[before as int] == value);
                assert forall|i: int| 0 <= i < h0.len() implies #[trigger] h0[i].0.wf_in(t1)
                    && h0[i].0.view_in(t1) == h0[i].0.view_in(t0) by {
                    h0[i].0.lemma_extends(t0, t1);
                }
                let new_texts = history_texts(h0, t1);
                assert forall|i: int| 0 <= i < new_texts.len() implies #[trigger] new_texts[i] == texts0[i] by {
                    assert(h0[i].0.wf_in(t1));
                }
                assert(new_texts =~= texts0);
            }
            Some(value.0)
        },
    }
}

} // verus!
