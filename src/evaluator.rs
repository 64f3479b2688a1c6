//! Counting hits in one trial, packed (population count over 64-bit words)
//! and naive (one comparison per drawn symbol).
use vstd::prelude::*;

verus! {

/// The symbol that counts as a hit. Both evaluators target the pattern `11`.
pub const TARGET_SYMBOL: u8 = 3;

/// Number of symbols drawn in one trial.
pub const TRIAL_SAMPLES: usize = 231;

/// Every other bit set: the low bit of each two-bit field.
pub const LOW_BITS: u64 = 0x5555_5555_5555_5555;

/// Shift applied to the head word so that only its top seven fields remain.
pub const HEAD_SHIFT: u64 = 50;

/// Whether bit `i` of `w` is set.
pub open spec fn bit_set(w: u64, i: u64) -> bool {
    (w >> i) & 1 == 1
}

/// Number of set bits of `w` among positions `0..n`.
pub open spec fn ones_below(w: u64, n: nat) -> nat
    decreases n,
{
    if n == 0 {
        0
    } else {
        ones_below(w, (n - 1) as nat) + if bit_set(w, (n - 1) as u64) {
            1nat
        } else {
            0nat
        }
    }
}

/// The two-bit field `i` of `w` (field 0 is the lowest two bits).
pub open spec fn field_at(w: u64, i: u64) -> u64 {
    (w >> ((2 * i) as u64)) & 3
}

/// The 32 symbols packed in one word, lowest field first.
pub open spec fn word_symbols(w: u64) -> Seq<u8> {
    Seq::new(32, |i: int| field_at(w, i as u64) as u8)
}

/// How many entries of `s` equal `t`.
pub open spec fn count_symbol(s: Seq<u8>, t: u8) -> nat
    decreases s.len(),
{
    if s.len() == 0 {
        0
    } else {
        count_symbol(s.drop_last(), t) + if s.last() == t {
            1nat
        } else {
            0nat
        }
    }
}

/// The number of target symbols among the 32 fields of `w`.
pub open spec fn word_hits(w: u64) -> nat {
    count_symbol(word_symbols(w), TARGET_SYMBOL)
}

/// The symbols of one trial: the top seven fields of `head`, then the 32
/// fields of each word of `body` in order.
pub open spec fn trial_symbols(head: u64, body: Seq<u64>) -> Seq<u8>
    decreases body.len(),
{
    if body.len() == 0 {
        word_symbols(head).subrange(25, 32)
    } else {
        trial_symbols(head, body.drop_last()) + word_symbols(body.last())
    }
}

/// Relies on `u64::count_ones`: the number of ones in the binary representation.
#[verifier::external_body]
fn pop_count(w: u64) -> (r: u32)
    ensures
        r == ones_below(w, 64),
{
    w.count_ones()
}

proof fn lemma_pair_bits(w: u64, k: u64)
    by (bit_vector)
    requires
        k < 32,
    ensures
        bit_set((w >> 1) & w & LOW_BITS, (2 * k) as u64) == (field_at(w, k) == 3),
        !bit_set((w >> 1) & w & LOW_BITS, (2 * k + 1) as u64),
        field_at(w, k) <= 3,
{
}

proof fn lemma_count_push(s: Seq<u8>, x: u8, t: u8)
    ensures
        count_symbol(s.push(x), t) == count_symbol(s, t) + if x == t {
            1nat
        } else {
            0nat
        },
{
    assert(s.push(x).drop_last() =~= s);
}

proof fn lemma_count_concat(a: Seq<u8>, b: Seq<u8>, t: u8)
    ensures
        count_symbol(a + b, t) == count_symbol(a, t) + count_symbol(b, t),
    decreases b.len(),
{
    if b.len() > 0 {
        assert((a + b).drop_last() =~= a + b.drop_last());
        lemma_count_concat(a, b.drop_last(), t);
    } else {
        assert(a + b =~= a);
    }
}

/// A count of matching entries never exceeds the length.
pub proof fn lemma_count_bound(s: Seq<u8>, t: u8)
    ensures
        count_symbol(s, t) <= s.len(),
    decreases s.len(),
{
    if s.len() > 0 {
        lemma_count_bound(s.drop_last(), t);
    }
}

proof fn lemma_masked_ones(w: u64, k: nat)
    requires
        k <= 32,
    ensures
        ones_below((w >> 1) & w & LOW_BITS, 2 * k) == count_symbol(word_symbols(w).take(k as int), 3),
    decreases k,
{
    let m = (w >> 1) & w & LOW_BITS;
    if k > 0 {
        let j = (k - 1) as nat;
        lemma_masked_ones(w, j);
        lemma_pair_bits(w, j as u64);
        assert(word_symbols(w).take(k as int) =~= word_symbols(w).take(j as int).push(
            word_symbols(w)[j as int],
        ));
        lemma_count_push(word_symbols(w).take(j as int), word_symbols(w)[j as int], 3);
        assert(ones_below(m, 2 * k) == ones_below(m, 2 * j + 1));
        assert(ones_below(m, 2 * j + 1) == ones_below(m, 2 * j) + if bit_set(m, (2 * j) as u64) {
            1nat
        } else {
            0nat
        });
    } else {
        assert(word_symbols(w).take(0) =~= Seq::<u8>::empty());
    }
}

/// Number of fields equal to `11` among the 32 two-bit fields of `rand64`:
/// a field is `11` exactly when its high bit, shifted onto its low bit, and
/// its low bit are both set.
pub fn count_hits(rand64: u64) -> (r: u32)
    ensures
        r == word_hits(rand64),
        r <= 32,
{
    let r = pop_count((rand64 >> 1) & rand64 & LOW_BITS);
    proof {
        lemma_masked_ones(rand64, 32);
        assert(word_symbols(rand64).take(32) =~= word_symbols(rand64));
        lemma_count_bound(word_symbols(rand64), TARGET_SYMBOL);
    }
    r
}

/// The random bits of one trial: the top seven fields of `head` and the 32
/// fields of each of the seven words of `body`, 231 symbols in all.
pub struct TrialBits {
    pub head: u64,
    pub body: [u64; 7],
}

impl TrialBits {
    /// The 231 symbols that these bits encode, in draw order.
    pub open spec fn symbols(&self) -> Seq<u8> {
        trial_symbols(self.head, self.body@)
    }

    /// Number of target symbols among the trial's 231 symbols, by population
    /// count over the shifted head word and the seven body words.
    pub fn packed_hits(&self) -> (r: u32)
        ensures
            r == count_symbol(self.symbols(), TARGET_SYMBOL),
            r <= TRIAL_SAMPLES,
    {
        let mut hits = count_hits(self.head >> HEAD_SHIFT);
        proof {
            lemma_head_hits(self.head);
        }
        let mut i: usize = 0;
        while i < 7
            invariant
                i <= 7,
                hits == count_symbol(trial_symbols(self.head, self.body@.take(i as int)), TARGET_SYMBOL),
                hits <= 32 * (i + 1),
            decreases 7 - i,
        {
            let h = count_hits(self.body[i]);
            proof {
                let next = self.body@.take(i + 1);
                assert(next.drop_last() =~= self.body@.take(i as int));
                lemma_count_concat(
                    trial_symbols(self.head, self.body@.take(i as int)),
                    word_symbols(self.body@[i as int]),
                    TARGET_SYMBOL,
                );
            }
            hits = hits + h;
            i = i + 1;
        }
        proof {
            assert(self.body@.take(7) =~= self.body@);
            lemma_trial_len(self.head, self.body@);
            lemma_count_bound(self.symbols(), TARGET_SYMBOL);
        }
        hits
    }

    /// The trial's 231 symbols, one per entry, in draw order.
    pub fn unpack(&self) -> (r: Vec<u8>)
        ensures
            r@ == self.symbols(),
    {
        let mut v: Vec<u8> = Vec::new();
        push_fields(&mut v, self.head, 25);
        proof {
            assert(v@ =~= trial_symbols(self.head, self.body@.take(0)));
        }
        let mut i: usize = 0;
        while i < 7
            invariant
                i <= 7,
                v@ == trial_symbols(self.head, self.body@.take(i as int)),
            decreases 7 - i,
        {
            push_fields(&mut v, self.body[i], 0);
            proof {
                assert(self.body@.take(i + 1).drop_last() =~= self.body@.take(i as int));
                assert(word_symbols(self.body@[i as int]).subrange(0, 32) =~= word_symbols(
                    self.body@[i as int],
                ));
            }
            i = i + 1;
        }
        proof {
            assert(self.body@.take(7) =~= self.body@);
        }
        v
    }
}

/// Appends the fields `from..32` of `w` to `v`, lowest first.
fn push_fields(v: &mut Vec<u8>, w: u64, from: u64)
    requires
        from <= 32,
    ensures
        final(v)@ == old(v)@ + word_symbols(w).subrange(from as int, 32),
{
    let mut i: u64 = from;
    while i < 32
        invariant
            from <= i <= 32,
            v@ == old(v)@ + word_symbols(w).subrange(from as int, i as int),
        decreases 32 - i,
    {
        v.push(((w >> (2 * i)) & 3) as u8);
        proof {
            assert(word_symbols(w).subrange(from as int, i + 1) =~= word_symbols(w).subrange(
                from as int,
                i as int,
            ).push(field_at(w, i) as u8));
        }
        i = i + 1;
    }
}

proof fn lemma_trial_len(head: u64, body: Seq<u64>)
    ensures
        trial_symbols(head, body).len() == 7 + 32 * body.len(),
    decreases body.len(),
{
    if body.len() > 0 {
        lemma_trial_len(head, body.drop_last());
    }
}

proof fn lemma_head_fields(h: u64, i: u64)
    by (bit_vector)
    requires
        i < 32,
    ensures
        i < 7 ==> field_at(h >> HEAD_SHIFT, i) == field_at(h, (i + 25) as u64),
        i >= 7 ==> field_at(h >> HEAD_SHIFT, i) == 0,
{
}

proof fn lemma_count_absent(s: Seq<u8>, t: u8)
    requires
        forall|i: int| 0 <= i < s.len() ==> s[i] != t,
    ensures
        count_symbol(s, t) == 0,
    decreases s.len(),
{
    if s.len() > 0 {
        lemma_count_absent(s.drop_last(), t);
    }
}

/// Shifting the head word keeps its top seven fields as the low seven and
/// fills the rest with zeros, which are no hits.
proof fn lemma_head_hits(h: u64)
    ensures
        word_hits(h >> HEAD_SHIFT) == count_symbol(trial_symbols(h, Seq::<u64>::empty()), TARGET_SYMBOL),
{
    let top = word_symbols(h).subrange(25, 32);
    let zeros = Seq::new(25, |i: int| 0u8);
    assert forall|i: int| 0 <= i < 32 implies word_symbols(h >> HEAD_SHIFT)[i] == (top + zeros)[i] by {
        lemma_head_fields(h, i as u64);
    }
    assert(word_symbols(h >> HEAD_SHIFT) =~= top + zeros);
    lemma_count_concat(top, zeros, TARGET_SYMBOL);
    lemma_count_absent(zeros, TARGET_SYMBOL);
}

/// Number of target symbols among `samples`, one comparison per symbol.
pub fn naive_trial_hits(samples: &Vec<u8>) -> (r: u32)
    requires
        samples@.len() <= u32::MAX,
    ensures
        r == count_symbol(samples@, TARGET_SYMBOL),
{
    let mut hits: u32 = 0;
    let mut i: usize = 0;
    while i < samples.len()
        invariant
            i <= samples@.len() <= u32::MAX,
            hits == count_symbol(samples@.take(i as int), TARGET_SYMBOL),
            hits <= i,
        decreases samples@.len() - i,
    {
        proof {
            assert(samples@.take(i + 1) =~= samples@.take(i as int).push(samples@[i as int]));
            lemma_count_push(samples@.take(i as int), samples@[i as int], TARGET_SYMBOL);
        }
        if samples[i] == TARGET_SYMBOL {
            hits = hits + 1;
        }
        i = i + 1;
    }
    proof {
        assert(samples@.take(samples@.len() as int) =~= samples@);
    }
    hits
}

} // verus!
