//! Blocks: deterministic sets of verified transaction messages.
use crate::id::{id_less, id_lt, Id};
use crate::message::{MessageView, Transaction, TransactionView, VerifiedMessage};
use crate::order::{
    bytes_equal, bytes_precede, lemma_lex_irreflexive, lemma_lex_total, lemma_lex_transitive, lemma_sorted_insert,
    lemma_sorted_unique, lex_precedes, strictly_sorted, SpecOrder,
};
use vstd::prelude::*;

verus! {

/// The views of a sequence of verified transaction messages.
pub open spec fn message_views(s: Seq<VerifiedMessage<Transaction>>) -> Seq<MessageView<TransactionView>> {
    s.map_values(|m: VerifiedMessage<Transaction>| m@)
}

/// The IDs of a sequence of message views, in order.
pub open spec fn view_ids(s: Seq<MessageView<TransactionView>>) -> Seq<Id> {
    s.map_values(|m: MessageView<TransactionView>| m.id)
}

/// The order of transaction payloads: ELF programs first, by their bytes, then
/// join, then leave.
pub open spec fn payload_precedes(a: TransactionView, b: TransactionView) -> bool {
    match a {
        TransactionView::Elf(x) => match b {
            TransactionView::Elf(y) => lex_precedes(x, y),
            _ => true,
        },
        TransactionView::Join => b is Leave,
        TransactionView::Leave => false,
    }
}

impl SpecOrder for TransactionView {
    open spec fn precedes(self, other: TransactionView) -> bool {
        payload_precedes(self, other)
    }

    proof fn lemma_transitive(a: TransactionView, b: TransactionView, c: TransactionView) {
        if let (TransactionView::Elf(x), TransactionView::Elf(y), TransactionView::Elf(z)) = (a, b, c) {
            lemma_lex_transitive(x, y, z);
        }
    }

    proof fn lemma_irreflexive(a: TransactionView) {
        if let TransactionView::Elf(x) = a {
            lemma_lex_irreflexive(x);
        }
    }

    proof fn lemma_total(a: TransactionView, b: TransactionView) {
        if let (TransactionView::Elf(x), TransactionView::Elf(y)) = (a, b) {
            lemma_lex_total(x, y);
        }
    }
}

/// The order of transaction messages: by ID, then public key, signature,
/// payload and nonce, each field deciding only where the earlier ones are equal.
pub open spec fn message_precedes(a: MessageView<TransactionView>, b: MessageView<TransactionView>) -> bool {
    ||| id_lt(a.id, b.id)
    ||| a.id == b.id && lex_precedes(a.public_key, b.public_key)
    ||| a.id == b.id && a.public_key == b.public_key && lex_precedes(a.signature, b.signature)
    ||| a.id == b.id && a.public_key == b.public_key && a.signature == b.signature && payload_precedes(
        a.payload,
        b.payload,
    )
    ||| a.id == b.id && a.public_key == b.public_key && a.signature == b.signature && a.payload == b.payload
        && lex_precedes(a.nonce, b.nonce)
}

impl SpecOrder for MessageView<TransactionView> {
    open spec fn precedes(self, other: MessageView<TransactionView>) -> bool {
        message_precedes(self, other)
    }

    proof fn lemma_transitive(a: MessageView<TransactionView>, b: MessageView<TransactionView>, c: MessageView<TransactionView>) {
        if lex_precedes(a.public_key, b.public_key) && lex_precedes(b.public_key, c.public_key) {
            lemma_lex_transitive(a.public_key, b.public_key, c.public_key);
        }
        if lex_precedes(a.signature, b.signature) && lex_precedes(b.signature, c.signature) {
            lemma_lex_transitive(a.signature, b.signature, c.signature);
        }
        if payload_precedes(a.payload, b.payload) && payload_precedes(b.payload, c.payload) {
            TransactionView::lemma_transitive(a.payload, b.payload, c.payload);
        }
        if lex_precedes(a.nonce, b.nonce) && lex_precedes(b.nonce, c.nonce) {
            lemma_lex_transitive(a.nonce, b.nonce, c.nonce);
        }
    }

    proof fn lemma_irreflexive(a: MessageView<TransactionView>) {
        lemma_lex_irreflexive(a.public_key);
        lemma_lex_irreflexive(a.signature);
        TransactionView::lemma_irreflexive(a.payload);
        lemma_lex_irreflexive(a.nonce);
    }

    proof fn lemma_total(a: MessageView<TransactionView>, b: MessageView<TransactionView>) {
        crate::transaction_set::lemma_id_lt_total(a.id, b.id);
        lemma_lex_total(a.public_key, b.public_key);
        lemma_lex_total(a.signature, b.signature);
        TransactionView::lemma_total(a.payload, b.payload);
        lemma_lex_total(a.nonce, b.nonce);
    }
}

/// Whether payload `a` comes strictly before payload `b`.
fn payload_less(a: &Transaction, b: &Transaction) -> (r: bool)
    ensures
        r == payload_precedes(a@, b@),
{
    match a {
        Transaction::Elf(x) => match b {
            Transaction::Elf(y) => bytes_precede(x.as_bytes(), y.as_bytes()),
            _ => true,
        },
        Transaction::Join => match b {
            Transaction::Leave => true,
            _ => false,
        },
        Transaction::Leave => false,
    }
}

/// Whether two payloads are the same.
fn payload_same(a: &Transaction, b: &Transaction) -> (r: bool)
    ensures
        r == (a@ == b@),
{
    match a {
        Transaction::Elf(x) => match b {
            Transaction::Elf(y) => bytes_equal(x.as_bytes(), y.as_bytes()),
            _ => false,
        },
        Transaction::Join => match b {
            Transaction::Join => true,
            _ => false,
        },
        Transaction::Leave => match b {
            Transaction::Leave => true,
            _ => false,
        },
    }
}

/// Whether message `a` comes strictly before message `b` (see `message_precedes`).
pub fn message_less(a: &VerifiedMessage<Transaction>, b: &VerifiedMessage<Transaction>) -> (r: bool)
    ensures
        r == message_precedes(a@, b@),
{
    if id_less(a.id(), b.id()) {
        return true;
    }
    if *a.id() != *b.id() {
        return false;
    }
    let (ka, kb) = (a.public_key().as_bytes(), b.public_key().as_bytes());
    if bytes_precede(ka, kb) {
        return true;
    }
    if !bytes_equal(ka, kb) {
        return false;
    }
    let (sa, sb) = (a.signature().as_bytes(), b.signature().as_bytes());
    if bytes_precede(sa, sb) {
        return true;
    }
    if !bytes_equal(sa, sb) {
        return false;
    }
    if payload_less(a.payload(), b.payload()) {
        return true;
    }
    if !payload_same(a.payload(), b.payload()) {
        return false;
    }
    bytes_precede(a.nonce().as_bytes(), b.nonce().as_bytes())
}

/// Whether two messages are the same message, field by field.
pub fn message_same(a: &VerifiedMessage<Transaction>, b: &VerifiedMessage<Transaction>) -> (r: bool)
    ensures
        r == (a@ == b@),
{
    *a.id() == *b.id() && bytes_equal(a.public_key().as_bytes(), b.public_key().as_bytes()) && bytes_equal(
        a.signature().as_bytes(),
        b.signature().as_bytes(),
    ) && payload_same(a.payload(), b.payload()) && bytes_equal(a.nonce().as_bytes(), b.nonce().as_bytes())
}

/// `out` is the block of `input`: its distinct messages, each once, in ascending
/// message order.
pub open spec fn block_of(input: Seq<MessageView<TransactionView>>, out: Seq<MessageView<TransactionView>>) -> bool {
    &&& strictly_sorted(out)
    &&& forall|m: MessageView<TransactionView>| #[trigger] out.contains(m) <==> input.contains(m)
}

/// Deterministic block representation.
///
/// Keeping the messages as an ordered set makes block content independent of
/// the order in which the mempool received them.
#[derive(Debug)]
pub struct Block(Vec<VerifiedMessage<Transaction>>);

impl View for Block {
    type V = Seq<MessageView<TransactionView>>;

    closed spec fn view(&self) -> Seq<MessageView<TransactionView>> {
        message_views(self.0@)
    }
}

impl Block {
    #[verifier::type_invariant]
    closed spec fn inv(self) -> bool {
        strictly_sorted(message_views(self.0@))
    }

    /// The block of `transactions`: each distinct message once, in ascending
    /// message order.
    pub fn new(transactions: Vec<VerifiedMessage<Transaction>>) -> (r: Self)
        ensures
            block_of(message_views(transactions@), r@),
    {
        let ghost input = message_views(transactions@);
        let mut out: Vec<VerifiedMessage<Transaction>> = Vec::new();
        let mut n: usize = 0;
        let total = transactions.len();
        while n < total
            invariant
                total == input.len(),
                n <= total,
                input == message_views(transactions@),
                strictly_sorted(message_views(out@)),
                forall|m: MessageView<TransactionView>|
                    #[trigger] message_views(out@).contains(m) <==> input.subrange(0, n as int).contains(m),
            decreases total - n,
        {
            let m = transactions[n].clone();
            let ghost before = message_views(out@);
            proof {
                assert(m@ == input[n as int]);
                assert(input.subrange(0, n + 1) =~= input.subrange(0, n as int).push(m@));
                assert forall|x: MessageView<TransactionView>|
                    input.subrange(0, n + 1).contains(x) <==> (input.subrange(0, n as int).contains(x) || x == m@) by {
                    crate::transaction_set::lemma_push_contains(input.subrange(0, n as int), m@, x);
                }
            }
            let mut pos: usize = 0;
            while pos < out.len() && message_less(&out[pos], &m)
                invariant
                    pos <= out@.len(),
                    before == message_views(out@),
                    forall|k: int| 0 <= k < pos ==> message_precedes(#[trigger] before[k], m@),
                decreases out@.len() - pos,
            {
                proof {
                    assert(before[pos as int] == out@[pos as int]@);
                }
                pos = pos + 1;
            }
            if pos < out.len() && message_same(&out[pos], &m) {
                proof {
                    assert(before[pos as int] == m@);
                    assert(before.contains(m@));
                }
            } else {
                proof {
                    if pos < out@.len() {
                        assert(before[pos as int] == out@[pos as int]@);
                        MessageView::<TransactionView>::lemma_total(m@, before[pos as int]);
                    }
                    assert forall|k: int| pos <= k < before.len() implies message_precedes(m@, #[trigger] before[k]) by {
                        if k > pos {
                            MessageView::<TransactionView>::lemma_transitive(m@, before[pos as int], before[k]);
                        }
                    }
                    lemma_sorted_insert(before, pos as int, m@);
                }
                out.insert(pos, m);
                proof {
                    let after = message_views(out@);
                    assert(after =~= before.insert(pos as int, input[n as int]));
                    assert forall|x: MessageView<TransactionView>| after.contains(x) <==> (before.contains(x) || x == m@) by {
                        if after.contains(x) {
                            let k = choose|k: int| 0 <= k < after.len() && after[k] == x;
                            if k < pos {
                                assert(before[k] == x);
                            } else if k > pos {
                                assert(before[k - 1] == x);
                            }
                        }
                        if before.contains(x) {
                            let k = choose|k: int| 0 <= k < before.len() && before[k] == x;
                            if k < pos {
                                assert(after[k] == x);
                            } else {
                                assert(after[k + 1] == x);
                            }
                        }
                        if x == m@ {
                            assert(after[pos as int] == x);
                        }
                    }
                }
            }
            n = n + 1;
        }
        proof {
            assert(input.subrange(0, n as int) =~= input);
        }
        Block(out)
    }

    /// The messages of the block, in ascending message order.
    pub fn transactions(&self) -> (r: &Vec<VerifiedMessage<Transaction>>)
        ensures
            message_views(r@) == self@,
            strictly_sorted(self@),
    {
        proof {
            use_type_invariant(self);
        }
        &self.0
    }
}

/// A block's content does not depend on the order its messages were given in, nor
/// on repetitions: two inputs that hold the same messages make the same block.
pub proof fn lemma_block_order_independent(
    a: Seq<MessageView<TransactionView>>,
    b: Seq<MessageView<TransactionView>>,
    out_a: Seq<MessageView<TransactionView>>,
    out_b: Seq<MessageView<TransactionView>>,
)
    requires
        forall|m: MessageView<TransactionView>| a.contains(m) <==> b.contains(m),
        block_of(a, out_a),
        block_of(b, out_b),
    ensures
        out_a == out_b,
{
    assert forall|m: MessageView<TransactionView>| out_a.contains(m) <==> out_b.contains(m) by {
        assert(out_a.contains(m) <==> a.contains(m));
        assert(out_b.contains(m) <==> b.contains(m));
    }
    lemma_sorted_unique(out_a, out_b);
}

/// In a block the IDs ascend: messages with the same ID stand next to each other.
pub proof fn lemma_block_ids_ascend(s: Seq<MessageView<TransactionView>>, i: int, j: int)
    requires
        strictly_sorted(s),
        0 <= i < j < s.len(),
    ensures
        id_lt(s[i].id, s[j].id) || s[i].id == s[j].id,
{
    assert(s[i].precedes(s[j]));
}

} // verus!
