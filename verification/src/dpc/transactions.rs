//! The list of the transactions of a block.
use crate::bytes::{bytes_eq, contains_bytes, copy_window, views, write_all, ByteError};
use crate::dpc::errors::TransactionError;
use crate::hexadecimal::{hex_encode, hex_encoding};
use crate::dpc::variable_length_integer::{
    read_variable_length_integer, read_variable_length_integer_spec, variable_length_integer,
    variable_length_integer_spec,
};
use vstd::prelude::*;

verus! {

/// What the list needs of a transaction.  The specification functions say
/// what a transaction holds; the executable functions hand it out.
pub trait TransactionScheme: Sized + Clone {
    /// The identifier of the transaction, or why there is none.
    spec fn transaction_id_spec(&self) -> Result<[u8; 32], TransactionError>;

    /// The network that the transaction is for.
    spec fn network_id_spec(&self) -> u8;

    /// The encodings of the serial numbers that the transaction spends.
    spec fn old_serial_numbers_spec(&self) -> Seq<Seq<u8>>;

    /// The encodings of the commitments that the transaction creates.
    spec fn new_commitments_spec(&self) -> Seq<Seq<u8>>;

    /// The memorandum of the transaction.
    spec fn memorandum_spec(&self) -> Seq<u8>;

    /// The encoding of the whole transaction.
    spec fn to_bytes_spec(&self) -> Seq<u8>;

    /// Where the transaction that is encoded at `start` ends, or why none
    /// is encoded there.
    spec fn read_end_spec(bytes: Seq<u8>, start: int) -> Result<int, ByteError>;

    fn transaction_id(&self) -> (r: Result<[u8; 32], TransactionError>)
        ensures
            r == self.transaction_id_spec(),
    ;

    fn network_id(&self) -> (r: u8)
        ensures
            r == self.network_id_spec(),
    ;

    fn old_serial_numbers(&self) -> (r: Vec<Vec<u8>>)
        ensures
            views(r@) == self.old_serial_numbers_spec(),
    ;

    fn new_commitments(&self) -> (r: Vec<Vec<u8>>)
        ensures
            views(r@) == self.new_commitments_spec(),
    ;

    fn memorandum(&self) -> (r: Vec<u8>)
        ensures
            r@ == self.memorandum_spec(),
    ;

    /// Appends the encoding of the transaction to `out`.
    fn write(&self, out: &mut Vec<u8>)
        ensures
            final(out)@ == old(out)@ + self.to_bytes_spec(),
    ;

    /// Decodes the transaction that is encoded at `start`, and says where
    /// its encoding ends.
    fn read(bytes: &[u8], start: usize) -> (r: Result<(Self, usize), ByteError>)
        ensures
            match r {
                Ok((t, next)) => {
                    &&& Self::read_end_spec(bytes@, start as int) == Ok::<int, ByteError>(
                        next as int,
                    )
                    &&& start <= next <= bytes.len()
                    &&& t.to_bytes_spec() == bytes@.subrange(start as int, next as int)
                },
                Err(e) => Self::read_end_spec(bytes@, start as int) == Err::<int, ByteError>(e),
            },
    ;
}

/// The transactions of a block, in their order.
#[derive(Clone)]
pub struct Transactions<T: TransactionScheme>(pub Vec<T>);

/// Some entry of `s` occurs a second time.
pub open spec fn has_duplicates_spec(s: Seq<Seq<u8>>) -> bool {
    exists|i: int, j: int| 0 <= i < j < s.len() && s[i] == s[j]
}

/// The transaction `t` cannot stand beside the transactions `txs`: one of
/// them is for another network or has the same memorandum, `t` spends a
/// serial number or creates a commitment twice, or `t` spends a serial
/// number or creates a commitment that one of them spends or creates.
pub open spec fn conflicts_spec<T: TransactionScheme>(txs: Seq<T>, t: T) -> bool {
    ||| exists|i: int| 0 <= i < txs.len() && (#[trigger] txs[i]).network_id_spec() != t.network_id_spec()
    ||| has_duplicates_spec(t.old_serial_numbers_spec())
    ||| has_duplicates_spec(t.new_commitments_spec())
    ||| exists|i: int| 0 <= i < txs.len() && (#[trigger] txs[i]).memorandum_spec() == t.memorandum_spec()
    ||| exists|i: int, k: int|
        0 <= i < txs.len() && 0 <= k < t.old_serial_numbers_spec().len() && (
        #[trigger] txs[i]).old_serial_numbers_spec().contains(
            #[trigger] t.old_serial_numbers_spec()[k],
        )
    ||| exists|i: int, k: int|
        0 <= i < txs.len() && 0 <= k < t.new_commitments_spec().len() && (
        #[trigger] txs[i]).new_commitments_spec().contains(#[trigger] t.new_commitments_spec()[k])
}

/// The encodings of the first `n` transactions, one after the other.
pub open spec fn concat_bytes<T: TransactionScheme>(txs: Seq<T>, n: int) -> Seq<u8>
    decreases n,
{
    if n <= 0 {
        Seq::empty()
    } else {
        concat_bytes(txs, n - 1) + txs[n - 1].to_bytes_spec()
    }
}

/// Where the `n` transactions that are encoded one after the other from
/// `start` end, or the first error on the way.
pub open spec fn read_all_end_spec<T: TransactionScheme>(bytes: Seq<u8>, start: int, n: nat) -> Result<
    int,
    ByteError,
>
    decreases n,
{
    if n == 0 {
        Ok(start)
    } else {
        match read_all_end_spec::<T>(bytes, start, (n - 1) as nat) {
            Err(e) => Err(e),
            Ok(mid) => T::read_end_spec(bytes, mid),
        }
    }
}

/// Whether some entry of `v` occurs a second time.
pub fn has_duplicates(v: &Vec<Vec<u8>>) -> (r: bool)
    ensures
        r == has_duplicates_spec(views(v@)),
{
    let mut j: usize = 0;
    while j < v.len()
        invariant
            j <= v.len(),
            forall|a: int, b: int| 0 <= a < b < j ==> v@[a]@ != v@[b]@,
        decreases v.len() - j,
    {
        let mut i: usize = 0;
        while i < j
            invariant
                i <= j < v.len(),
                forall|a: int| 0 <= a < i ==> v@[a]@ != v@[j as int]@,
            decreases j - i,
        {
            if bytes_eq(&v[i], &v[j]) {
                assert(views(v@)[i as int] == views(v@)[j as int]);
                return true;
            }
            i += 1;
        }
        j += 1;
    }
    assert forall|a: int, b: int| 0 <= a < b < views(v@).len() implies views(v@)[a] != views(
        v@,
    )[b] by {
        assert(v@[a]@ != v@[b]@);
    }
    false
}

impl<T: TransactionScheme> Transactions<T> {
    /// The encoding of the list: its length, then its transactions.
    pub open spec fn to_bytes_spec(&self) -> Seq<u8> {
        variable_length_integer_spec(self.0@.len() as u64) + concat_bytes(self.0@, self.0@.len() as int)
    }

    /// Initializes an empty list of transactions.
    pub fn new() -> (r: Self)
        ensures
            r.0@ == Seq::<T>::empty(),
    {
        Transactions(Vec::new())
    }

    /// Initializes from a given list of transactions: the list holds a
    /// clone of each, in the same order.
    pub fn from(transactions: &[T]) -> (r: Self)
        ensures
            r.0@.len() == transactions@.len(),
            forall|i: int| 0 <= i < transactions@.len() ==> cloned(transactions@[i], #[trigger] r.0@[i]),
    {
        let mut v: Vec<T> = Vec::new();
        let mut i: usize = 0;
        while i < transactions.len()
            invariant
                i <= transactions.len(),
                v@.len() == i,
                forall|k: int| 0 <= k < i ==> cloned(transactions@[k], #[trigger] v@[k]),
            decreases transactions.len() - i,
        {
            let t = transactions[i].clone();
            v.push(t);
            i += 1;
        }
        Transactions(v)
    }

    /// Appends a transaction to the list.
    pub fn push(&mut self, transaction: T)
        ensures
            final(self).0@ == old(self).0@.push(transaction),
    {
        self.0.push(transaction);
    }

    /// Returns the transaction ids: all of them, in the order of the list,
    /// or the error of the first transaction that has none.
    pub fn to_transaction_ids(&self) -> (r: Result<Vec<[u8; 32]>, TransactionError>)
        ensures
            match r {
                Ok(ids) => {
                    &&& ids@.len() == self.0@.len()
                    &&& forall|i: int|
                        0 <= i < self.0@.len() ==> (#[trigger] self.0@[i]).transaction_id_spec() == Ok::<
                            [u8; 32],
                            TransactionError,
                        >(ids@[i])
                },
                Err(e) => exists|i: int|
                    {
                        &&& 0 <= i < self.0@.len()
                        &&& (#[trigger] self.0@[i]).transaction_id_spec() == Err::<
                            [u8; 32],
                            TransactionError,
                        >(e)
                        &&& forall|j: int|
                            0 <= j < i ==> (#[trigger] self.0@[j]).transaction_id_spec() is Ok
                    },
            },
    {
        let mut ids: Vec<[u8; 32]> = Vec::new();
        let mut i: usize = 0;
        while i < self.0.len()
            invariant
                i <= self.0@.len(),
                ids@.len() == i,
                forall|k: int|
                    0 <= k < i ==> (#[trigger] self.0@[k]).transaction_id_spec() == Ok::<
                        [u8; 32],
                        TransactionError,
                    >(ids@[k]),
            decreases self.0@.len() - i,
        {
            match self.0[i].transaction_id() {
                Ok(id) => {
                    ids.push(id);
                },
                Err(e) => {
                    assert(self.0@[i as int].transaction_id_spec() == Err::<
                        [u8; 32],
                        TransactionError,
                    >(e));
                    return Err(e);
                },
            }
            i += 1;
        }
        Ok(ids)
    }

    /// Serializes the transactions into byte vectors.
    pub fn serialize(&self) -> (r: Result<Vec<Vec<u8>>, TransactionError>)
        ensures
            r is Ok,
            r->Ok_0@.len() == self.0@.len(),
            forall|i: int|
                0 <= i < self.0@.len() ==> (#[trigger] r->Ok_0@[i])@ == self.0@[i].to_bytes_spec(),
    {
        let mut out: Vec<Vec<u8>> = Vec::new();
        let mut i: usize = 0;
        while i < self.0.len()
            invariant
                i <= self.0@.len(),
                out@.len() == i,
                forall|k: int| 0 <= k < i ==> (#[trigger] out@[k])@ == self.0@[k].to_bytes_spec(),
            decreases self.0@.len() - i,
        {
            let mut b: Vec<u8> = Vec::new();
            self.0[i].write(&mut b);
            assert(b@ =~= self.0@[i as int].to_bytes_spec());
            out.push(b);
            i += 1;
        }
        Ok(out)
    }

    /// Serializes the transactions into strings: the hexadecimal text of the
    /// encoding of each.
    pub fn serialize_as_str(&self) -> (r: Result<Vec<String>, TransactionError>)
        ensures
            r is Ok,
            r->Ok_0@.len() == self.0@.len(),
            forall|i: int|
                0 <= i < self.0@.len() ==> (#[trigger] r->Ok_0@[i])@ == hex_encoding(
                    self.0@[i].to_bytes_spec(),
                ),
    {
        let mut out: Vec<String> = Vec::new();
        let mut i: usize = 0;
        while i < self.0.len()
            invariant
                i <= self.0@.len(),
                out@.len() == i,
                forall|k: int|
                    0 <= k < i ==> (#[trigger] out@[k])@ == hex_encoding(self.0@[k].to_bytes_spec()),
            decreases self.0@.len() - i,
        {
            let mut b: Vec<u8> = Vec::new();
            self.0[i].write(&mut b);
            assert(b@ =~= self.0@[i as int].to_bytes_spec());
            out.push(hex_encode(&b));
            i += 1;
        }
        Ok(out)
    }

    /// Whether `transaction` cannot stand beside the transactions of the
    /// list.
    #[verifier::loop_isolation(false)]
    pub fn conflicts(&self, transaction: &T) -> (r: bool)
        ensures
            r == conflicts_spec(self.0@, *transaction),
    {
        let mut holding_serial_numbers: Vec<Vec<u8>> = Vec::new();
        let mut holding_commitments: Vec<Vec<u8>> = Vec::new();
        let mut holding_memos: Vec<Vec<u8>> = Vec::new();
        let network_id = transaction.network_id();
        let mut i: usize = 0;
        while i < self.0.len()
            invariant
                i <= self.0@.len(),
                network_id == transaction.network_id_spec(),
                forall|k: int| 0 <= k < i ==> (#[trigger] self.0@[k]).network_id_spec() == network_id,
                holding_memos@.len() == i,
                forall|k: int| 0 <= k < i ==> (#[trigger] holding_memos@[k])@ == self.0@[k].memorandum_spec(),
                forall|x: Seq<u8>|
                    views(holding_serial_numbers@).contains(x) <==> exists|k: int|
                        0 <= k < i && (#[trigger] self.0@[k]).old_serial_numbers_spec().contains(x),
                forall|x: Seq<u8>|
                    views(holding_commitments@).contains(x) <==> exists|k: int|
                        0 <= k < i && (#[trigger] self.0@[k]).new_commitments_spec().contains(x),
            decreases self.0@.len() - i,
        {
            let tx = &self.0[i];
            if tx.network_id() != network_id {
                return true;
            }
            let sns = tx.old_serial_numbers();
            let cms = tx.new_commitments();
            let ghost before_sn = views(holding_serial_numbers@);
            let ghost before_cm = views(holding_commitments@);
            append_all(&mut holding_serial_numbers, &sns);
            append_all(&mut holding_commitments, &cms);
            holding_memos.push(tx.memorandum());
            proof {
                let sn_spec = self.0@[i as int].old_serial_numbers_spec();
                let cm_spec = self.0@[i as int].new_commitments_spec();
                assert forall|x: Seq<u8>|
                    views(holding_serial_numbers@).contains(x) <==> exists|k: int|
                        0 <= k < i + 1 && (#[trigger] self.0@[k]).old_serial_numbers_spec().contains(
                            x,
                        ) by {
                    lemma_contains_concat(before_sn, sn_spec, x);
                    if sn_spec.contains(x) {
                        assert(self.0@[i as int].old_serial_numbers_spec().contains(x));
                    }
                }
                assert forall|x: Seq<u8>|
                    views(holding_commitments@).contains(x) <==> exists|k: int|
                        0 <= k < i + 1 && (#[trigger] self.0@[k]).new_commitments_spec().contains(
                            x,
                        ) by {
                    lemma_contains_concat(before_cm, cm_spec, x);
                    if cm_spec.contains(x) {
                        assert(self.0@[i as int].new_commitments_spec().contains(x));
                    }
                }
            }
            i += 1;
        }
        let transaction_serial_numbers = transaction.old_serial_numbers();
        let transaction_commitments = transaction.new_commitments();
        let transaction_memo = transaction.memorandum();
        // Check if the transactions in the block have duplicate serial numbers
        if has_duplicates(&transaction_serial_numbers) {
            return true;
        }
        // Check if the transactions in the block have duplicate commitments
        if has_duplicates(&transaction_commitments) {
            return true;
        }
        if contains_bytes(&holding_memos, &transaction_memo) {
            proof {
                let k = choose|k: int|
                    0 <= k < holding_memos@.len() && views(holding_memos@)[k] == transaction_memo@;
                assert(self.0@[k].memorandum_spec() == transaction.memorandum_spec());
            }
            return true;
        }
        assert forall|k: int| 0 <= k < self.0@.len() implies (#[trigger] self.0@[k]).memorandum_spec()
            != transaction.memorandum_spec() by {
            if self.0@[k].memorandum_spec() == transaction.memorandum_spec() {
                assert(views(holding_memos@)[k] == transaction_memo@);
            }
        }
        let mut a: usize = 0;
        while a < transaction_serial_numbers.len()
            invariant
                a <= transaction_serial_numbers@.len(),
                forall|k: int|
                    0 <= k < a ==> !views(holding_serial_numbers@).contains(
                        #[trigger] views(transaction_serial_numbers@)[k],
                    ),
            decreases transaction_serial_numbers@.len() - a,
        {
            if contains_bytes(&holding_serial_numbers, &transaction_serial_numbers[a]) {
                proof {
                    let x = views(transaction_serial_numbers@)[a as int];
                    assert(views(holding_serial_numbers@).contains(x));
                    let k = choose|k: int|
                        0 <= k < self.0@.len() && (#[trigger] self.0@[k]).old_serial_numbers_spec().contains(
                            x,
                        );
                    assert(self.0@[k].old_serial_numbers_spec().contains(
                        transaction.old_serial_numbers_spec()[a as int],
                    ));
                }
                return true;
            }
            assert(views(transaction_serial_numbers@)[a as int] == transaction_serial_numbers@[a as int]@);
            a += 1;
        }
        let mut b: usize = 0;
        while b < transaction_commitments.len()
            invariant
                b <= transaction_commitments@.len(),
                forall|k: int|
                    0 <= k < b ==> !views(holding_commitments@).contains(
                        #[trigger] views(transaction_commitments@)[k],
                    ),
            decreases transaction_commitments@.len() - b,
        {
            if contains_bytes(&holding_commitments, &transaction_commitments[b]) {
                proof {
                    let x = views(transaction_commitments@)[b as int];
                    assert(views(holding_commitments@).contains(x));
                    let k = choose|k: int|
                        0 <= k < self.0@.len() && (#[trigger] self.0@[k]).new_commitments_spec().contains(
                            x,
                        );
                    assert(self.0@[k].new_commitments_spec().contains(
                        transaction.new_commitments_spec()[b as int],
                    ));
                }
                return true;
            }
            assert(views(transaction_commitments@)[b as int] == transaction_commitments@[b as int]@);
            b += 1;
        }
        proof {
            let sn = transaction.old_serial_numbers_spec();
            let cm = transaction.new_commitments_spec();
            assert forall|i: int, k: int| 0 <= i < self.0@.len() && 0 <= k < sn.len() implies !(
            #[trigger] self.0@[i]).old_serial_numbers_spec().contains(#[trigger] sn[k]) by {
                if self.0@[i].old_serial_numbers_spec().contains(sn[k]) {
                    assert(views(holding_serial_numbers@).contains(sn[k]));
                    assert(!views(holding_serial_numbers@).contains(
                        views(transaction_serial_numbers@)[k],
                    ));
                }
            }
            assert forall|i: int, k: int| 0 <= i < self.0@.len() && 0 <= k < cm.len() implies !(
            #[trigger] self.0@[i]).new_commitments_spec().contains(#[trigger] cm[k]) by {
                if self.0@[i].new_commitments_spec().contains(cm[k]) {
                    assert(views(holding_commitments@).contains(cm[k]));
                    assert(!views(holding_commitments@).contains(
                        views(transaction_commitments@)[k],
                    ));
                }
            }
        }
        false
    }

    /// Appends the encoding of the list to `out`.
    pub fn write(&self, out: &mut Vec<u8>)
        ensures
            final(out)@ == old(out)@ + self.to_bytes_spec(),
    {
        let len = variable_length_integer(self.0.len() as u64);
        write_all(out, &len);
        let mut i: usize = 0;
        while i < self.0.len()
            invariant
                i <= self.0@.len(),
                out@ == old(out)@ + variable_length_integer_spec(self.0@.len() as u64) + concat_bytes(
                    self.0@,
                    i as int,
                ),
            decreases self.0@.len() - i,
        {
            let ghost before = out@;
            self.0[i].write(out);
            assert(out@ =~= old(out)@ + variable_length_integer_spec(self.0@.len() as u64)
                + concat_bytes(self.0@, i + 1));
            i += 1;
        }
        assert(out@ =~= old(out)@ + self.to_bytes_spec());
    }

    /// Decodes the list that is encoded at `start`, and says where its
    /// encoding ends.  Fails with the error of the length, where that cannot
    /// be read, else with the error of the first transaction that cannot.
    #[verifier::loop_isolation(false)]
    pub fn read(bytes: &[u8], start: usize) -> (r: Result<(Self, usize), ByteError>)
        ensures
            match read_variable_length_integer_spec(bytes@, start as int) {
                Err(e) => r == Err::<(Self, usize), ByteError>(e),
                Ok((n, first)) => match read_all_end_spec::<T>(bytes@, first as int, n as nat) {
                    Err(e) => r == Err::<(Self, usize), ByteError>(e),
                    Ok(end) => {
                        &&& r is Ok
                        &&& r->Ok_0.1 == end
                        &&& r->Ok_0.0.0@.len() == n
                        &&& r->Ok_0.0.to_bytes_spec() == bytes@.subrange(start as int, end)
                    },
                },
            },
    {
        let (num_transactions, first) = match read_variable_length_integer(bytes, start) {
            Err(e) => {
                return Err(e);
            },
            Ok(p) => p,
        };
        let mut transactions: Vec<T> = Vec::new();
        let mut pos = first;
        let mut i: usize = 0;
        while i < num_transactions
            invariant
                i <= num_transactions,
                transactions@.len() == i,
                first <= pos <= bytes.len(),
                read_all_end_spec::<T>(bytes@, first as int, i as nat) == Ok::<int, ByteError>(
                    pos as int,
                ),
                concat_bytes(transactions@, i as int) == bytes@.subrange(first as int, pos as int),
            decreases num_transactions - i,
        {
            match T::read(bytes, pos) {
                Err(e) => {
                    proof {
                        assert(read_all_end_spec::<T>(bytes@, first as int, (i + 1) as nat) == Err::<
                            int,
                            ByteError,
                        >(e));
                        lemma_read_all_error::<T>(
                            bytes@,
                            first as int,
                            (i + 1) as nat,
                            num_transactions as nat,
                        );
                    }
                    return Err(e);
                },
                Ok((t, next)) => {
                    let ghost before = transactions@;
                    transactions.push(t);
                    proof {
                        assert(read_all_end_spec::<T>(bytes@, first as int, (i + 1) as nat) == Ok::<
                            int,
                            ByteError,
                        >(next as int));
                        lemma_concat_bytes_prefix(before, transactions@, i as int);
                        assert(concat_bytes(transactions@, i + 1) =~= bytes@.subrange(
                            first as int,
                            next as int,
                        ));
                    }
                    pos = next;
                },
            }
            i += 1;
        }
        proof {
            lemma_variable_length_integer_window(bytes@, start as int);
            assert(bytes@.subrange(start as int, pos as int) =~= bytes@.subrange(
                start as int,
                first as int,
            ) + bytes@.subrange(first as int, pos as int));
        }
        Ok((Transactions(transactions), pos))
    }
}

/// Appends copies of the byte vectors of `src` to `dst`.
fn append_all(dst: &mut Vec<Vec<u8>>, src: &Vec<Vec<u8>>)
    ensures
        views(final(dst)@) == views(old(dst)@) + views(src@),
{
    let mut i: usize = 0;
    while i < src.len()
        invariant
            i <= src@.len(),
            views(dst@) == views(old(dst)@) + views(src@).subrange(0, i as int),
        decreases src@.len() - i,
    {
        let ghost before = dst@;
        let b = copy_window(src[i].as_slice(), 0, src[i].len());
        assert(b@ =~= src@[i as int]@);
        dst.push(b);
        assert(views(dst@) =~= views(before).push(src@[i as int]@));
        assert(views(src@).subrange(0, i + 1) =~= views(src@).subrange(0, i as int).push(
            src@[i as int]@,
        ));
        i += 1;
    }
    assert(views(src@).subrange(0, src@.len() as int) =~= views(src@));
}

/// An entry is in a concatenation exactly when it is in one of the parts.
proof fn lemma_contains_concat(a: Seq<Seq<u8>>, b: Seq<Seq<u8>>, x: Seq<u8>)
    ensures
        (a + b).contains(x) <==> a.contains(x) || b.contains(x),
{
    if (a + b).contains(x) {
        let k = choose|k: int| 0 <= k < (a + b).len() && (a + b)[k] == x;
        if k < a.len() {
            assert(a[k] == x);
        } else {
            assert(b[k - a.len()] == x);
        }
    }
    if a.contains(x) {
        let k = choose|k: int| 0 <= k < a.len() && a[k] == x;
        assert((a + b)[k] == x);
    }
    if b.contains(x) {
        let k = choose|k: int| 0 <= k < b.len() && b[k] == x;
        assert((a + b)[a.len() + k] == x);
    }
}

/// The encodings of the first `n` transactions depend on those alone.
proof fn lemma_concat_bytes_prefix<T: TransactionScheme>(a: Seq<T>, b: Seq<T>, n: int)
    requires
        0 <= n <= a.len(),
        n <= b.len(),
        forall|k: int| 0 <= k < n ==> a[k] == b[k],
    ensures
        concat_bytes(a, n) == concat_bytes(b, n),
    decreases n,
{
    if n > 0 {
        lemma_concat_bytes_prefix(a, b, n - 1);
    }
}

/// An error on the way stays the outcome however many more are asked for.
proof fn lemma_read_all_error<T: TransactionScheme>(bytes: Seq<u8>, start: int, m: nat, n: nat)
    requires
        m <= n,
        read_all_end_spec::<T>(bytes, start, m) is Err,
    ensures
        read_all_end_spec::<T>(bytes, start, n) == read_all_end_spec::<T>(bytes, start, m),
    decreases n - m,
{
    if m < n {
        lemma_read_all_error::<T>(bytes, start, m, (n - 1) as nat);
    }
}

/// Where a length is read, the bytes that were read are its encoding.
pub proof fn lemma_variable_length_integer_window(bytes: Seq<u8>, start: int)
    requires
        0 <= start,
        bytes.len() <= usize::MAX,
        read_variable_length_integer_spec(bytes, start) is Ok,
    ensures
        ({
            let (n, next) = read_variable_length_integer_spec(bytes, start)->Ok_0;
            &&& start < next <= bytes.len()
            &&& bytes.subrange(start, next as int) == variable_length_integer_spec(n as u64)
        }),
{
    vstd::bytes::lemma_auto_spec_u16_to_from_le_bytes();
    vstd::bytes::lemma_auto_spec_u32_to_from_le_bytes();
    vstd::bytes::lemma_auto_spec_u64_to_from_le_bytes();
    let (n, next) = read_variable_length_integer_spec(bytes, start)->Ok_0;
    let flag = bytes[start];
    let payload = bytes.subrange(start + 1, next as int);
    assert(bytes.subrange(start, next as int) =~= seq![flag] + payload);
    if flag <= 252 {
        assert(payload =~= Seq::<u8>::empty());
        assert(seq![flag] + payload =~= seq![flag]);
    }
}

impl<T: TransactionScheme> Default for Transactions<T> {
    /// The empty list of transactions.
    fn default() -> (r: Self)
        ensures
            r.0@ == Seq::<T>::empty(),
    {
        Transactions::new()
    }
}

} // verus!
