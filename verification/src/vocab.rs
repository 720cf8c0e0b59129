//! Token-to-id vocabulary, built once from a tokenized corpus and read-only
//! afterwards. Id 0 is the padding token, id 1 the unknown token; every other
//! id is assigned in the order tokens are first seen, restricted to tokens
//! whose total occurrence count reaches a minimum frequency.
use vstd::prelude::*;

verus! {

/// Id reserved for the padding token.
pub const PAD_ID: u32 = 0;

/// Id reserved for the unknown token.
pub const UNK_ID: u32 = 1;

/// Every encoded sequence has exactly this many ids.
pub const MAX_SEQ_LEN: usize = 128;

/// The text of the reserved padding token.
pub open spec fn pad_token() -> Seq<char> {
    "<pad>"@
}

/// The text of the reserved unknown token.
pub open spec fn unk_token() -> Seq<char> {
    "<unk>"@
}

/// The two reserved entries every vocabulary starts with.
pub open spec fn reserved_tokens() -> Seq<Seq<char>> {
    seq![pad_token(), unk_token()]
}

/// All tokens of a tokenized corpus, row after row, in corpus order.
pub open spec fn token_stream(rows: Seq<Seq<Seq<char>>>) -> Seq<Seq<char>>
    decreases rows.len(),
{
    if rows.len() == 0 {
        Seq::empty()
    } else {
        token_stream(rows.drop_last()) + rows.last()
    }
}

/// How often `t` occurs in the stream `s`.
pub open spec fn occurrences(s: Seq<Seq<char>>, t: Seq<char>) -> nat
    decreases s.len(),
{
    if s.len() == 0 {
        0
    } else {
        occurrences(s.drop_last(), t) + if s.last() == t {
            1nat
        } else {
            0nat
        }
    }
}

/// The distinct tokens of `s`, each at the position of its first occurrence.
pub open spec fn first_seen(s: Seq<Seq<char>>) -> Seq<Seq<char>>
    decreases s.len(),
{
    if s.len() == 0 {
        Seq::empty()
    } else {
        let rest = first_seen(s.drop_last());
        if rest.contains(s.last()) {
            rest
        } else {
            rest.push(s.last())
        }
    }
}

/// The members of `seen`, in order, whose count in `s` reaches `min_freq`.
pub open spec fn qualifying(seen: Seq<Seq<char>>, s: Seq<Seq<char>>, min_freq: nat) -> Seq<
    Seq<char>,
>
    decreases seen.len(),
{
    if seen.len() == 0 {
        Seq::empty()
    } else {
        qualifying(seen.drop_last(), s, min_freq) + if occurrences(s, seen.last()) >= min_freq {
            seq![seen.last()]
        } else {
            Seq::empty()
        }
    }
}

/// A table cut down so that every position fits in the id width.
pub open spec fn cap_table(all: Seq<Seq<char>>) -> Seq<Seq<char>> {
    if all.len() <= u32::MAX {
        all
    } else {
        all.take(u32::MAX as int)
    }
}

/// The full id-to-token table a build yields: the reserved entries followed by
/// the qualifying tokens in first-seen order, capped so that every id fits in
/// the id width.
pub open spec fn vocab_tokens(rows: Seq<Seq<Seq<char>>>, min_freq: nat) -> Seq<Seq<char>> {
    let s = token_stream(rows);
    cap_table(reserved_tokens() + qualifying(first_seen(s), s, min_freq))
}

/// The highest position at which `t` stands in `table`, or -1 when absent.
/// The highest one mirrors a map built by repeated insertion: a later entry
/// for the same token text shadows an earlier one.
pub open spec fn last_index_of(table: Seq<Seq<char>>, t: Seq<char>) -> int
    decreases table.len(),
{
    if table.len() == 0 {
        -1
    } else if table.last() == t {
        table.len() - 1
    } else {
        last_index_of(table.drop_last(), t)
    }
}

/// The id a table assigns to a token: its position when registered, the
/// reserved unknown id otherwise.
pub open spec fn spec_get_id(table: Seq<Seq<char>>, t: Seq<char>) -> u32 {
    let i = last_index_of(table, t);
    if i >= 0 {
        i as u32
    } else {
        UNK_ID
    }
}

pub proof fn lemma_last_index_of_properties(table: Seq<Seq<char>>, t: Seq<char>)
    ensures
        last_index_of(table, t) >= 0 <==> table.contains(t),
        last_index_of(table, t) >= 0 ==> last_index_of(table, t) < table.len() && table[
            last_index_of(table, t)
        ] == t,
    decreases table.len(),
{
    if table.len() > 0 {
        lemma_last_index_of_properties(table.drop_last(), t);
        if table.last() == t {
        } else {
            let i = last_index_of(table.drop_last(), t);
            if i >= 0 {
                assert(table.drop_last()[i] == table[i]);
            }
            if table.contains(t) {
                let j = choose|j: int| 0 <= j < table.len() && table[j] == t;
                assert(j < table.len() - 1);
                assert(table.drop_last()[j] == t);
                assert(table.drop_last().contains(t));
            }
        }
    }
}

proof fn lemma_occurrences_push(s: Seq<Seq<char>>, x: Seq<char>)
    ensures
        forall|t: Seq<char>|
            occurrences(s.push(x), t) == occurrences(s, t) + if x == t {
                1nat
            } else {
                0nat
            },
{
    assert(s.push(x).drop_last() =~= s);
    assert(s.push(x).last() == x);
}

proof fn lemma_occurrences_zero(s: Seq<Seq<char>>, t: Seq<char>)
    ensures
        occurrences(s, t) == 0 <==> !s.contains(t),
    decreases s.len(),
{
    if s.len() > 0 {
        lemma_occurrences_zero(s.drop_last(), t);
        if s.contains(t) {
            let j = choose|j: int| 0 <= j < s.len() && s[j] == t;
            if j < s.len() - 1 {
                assert(s.drop_last()[j] == t);
                assert(s.drop_last().contains(t));
            }
        }
        if s.drop_last().contains(t) {
            let j = choose|j: int| 0 <= j < s.len() - 1 && s.drop_last()[j] == t;
            assert(s[j] == t);
        }
    }
}

proof fn lemma_first_seen_contains(s: Seq<Seq<char>>, t: Seq<char>)
    ensures
        first_seen(s).contains(t) <==> s.contains(t),
    decreases s.len(),
{
    if s.len() > 0 {
        lemma_first_seen_contains(s.drop_last(), t);
        let rest = first_seen(s.drop_last());
        if s.contains(t) {
            let j = choose|j: int| 0 <= j < s.len() && s[j] == t;
            if j < s.len() - 1 {
                assert(s.drop_last()[j] == t);
                assert(s.drop_last().contains(t));
                if !rest.contains(s.last())  {
                    let i = choose|i: int| 0 <= i < rest.len() && rest[i] == t;
                    assert(rest.push(s.last())[i] == t);
                }
            } else {
                if rest.contains(s.last()) {
                } else {
                    assert(rest.push(s.last()).last() == t);
                }
            }
        }
        if first_seen(s).contains(t) {
            if !rest.contains(s.last()) {
                let i = choose|i: int|
                    0 <= i < rest.push(s.last()).len() && rest.push(s.last())[i] == t;
                if i < rest.len() {
                    assert(rest.contains(t));
                    assert(s.drop_last().contains(t));
                    let j = choose|j: int| 0 <= j < s.len() - 1 && s.drop_last()[j] == t;
                    assert(s[j] == t);
                } else {
                    assert(s.last() == t);
                }
            } else {
                assert(s.drop_last().contains(t));
                let j = choose|j: int| 0 <= j < s.len() - 1 && s.drop_last()[j] == t;
                assert(s[j] == t);
            }
        }
    }
}

proof fn lemma_first_seen_distinct(s: Seq<Seq<char>>)
    ensures
        forall|i: int, j: int|
            0 <= i < j < first_seen(s).len() ==> first_seen(s)[i] != first_seen(s)[j],
    decreases s.len(),
{
    if s.len() > 0 {
        lemma_first_seen_distinct(s.drop_last());
        let rest = first_seen(s.drop_last());
        if !rest.contains(s.last()) {
            assert forall|i: int, j: int|
                0 <= i < j < first_seen(s).len() implies first_seen(s)[i] != first_seen(
                s,
            )[j] by {
                if j < rest.len() {
                } else {
                    assert(first_seen(s)[j] == s.last());
                    assert(first_seen(s)[i] == rest[i]);
                }
            }
        }
    }
}

/// The counting state of a build in progress: `seen` lists the distinct
/// tokens of the processed stream `s` in first-seen order, and each entry of
/// `counts` is that token's occurrence count, capped at `min_freq`.
spec fn counting_inv(
    seen: Seq<Seq<char>>,
    counts: Seq<usize>,
    s: Seq<Seq<char>>,
    min_freq: nat,
) -> bool {
    &&& seen == first_seen(s)
    &&& counts.len() == seen.len()
    &&& forall|k: int|
        0 <= k < seen.len() ==> counts[k] as nat == if occurrences(s, seen[k]) >= min_freq {
            min_freq
        } else {
            occurrences(s, seen[k])
        }
}

/// The position of a token in the list of tokens seen so far, if any.
fn find_token(seen: &Vec<String>, token: &String) -> (r: Option<usize>)
    ensures
        match r {
            Some(k) => k < seen@.len() && seen.deep_view()[k as int] == token@,
            None => !seen.deep_view().contains(token@),
        },
{
    let n = seen.len();
    for i in 0..n
        invariant
            n == seen@.len(),
            forall|j: int| 0 <= j < i ==> seen.deep_view()[j] != token@,
    {
        if seen[i] == *token {
            return Some(i);
        }
    }
    None
}

/// Record one more occurrence of `token` in the counting state.
fn note_token(
    seen: &mut Vec<String>,
    counts: &mut Vec<usize>,
    token: &String,
    min_freq: usize,
    s: Ghost<Seq<Seq<char>>>,
)
    requires
        counting_inv(old(seen).deep_view(), old(counts)@, s@, min_freq as nat),
    ensures
        counting_inv(final(seen).deep_view(), final(counts)@, s@.push(token@), min_freq as nat),
{
    proof {
        lemma_occurrences_push(s@, token@);
        lemma_first_seen_distinct(s@);
        lemma_first_seen_contains(s@, token@);
        lemma_occurrences_zero(s@, token@);
        assert(s@.push(token@).drop_last() =~= s@);
    }
    match find_token(seen, token) {
        Some(k) => {
            proof {
                assert(first_seen(s@).contains(token@));
                assert(first_seen(s@.push(token@)) == first_seen(s@));
            }
            let c = counts[k];
            if c < min_freq {
                counts[k] = c + 1;
            }
            proof {
                assert forall|j: int|
                    0 <= j < seen.deep_view().len() && j != k implies occurrences(
                    s@.push(token@),
                    seen.deep_view()[j],
                ) == occurrences(s@, seen.deep_view()[j]) by {
                    assert(seen.deep_view()[j] != token@);
                }
            }
        },
        None => {
            proof {
                assert(!first_seen(s@).contains(token@));
                assert(first_seen(s@.push(token@)) == first_seen(s@).push(token@));
                assert(occurrences(s@, token@) == 0);
            }
            let ghost old_dv = seen.deep_view();
            seen.push(token.clone());
            counts.push(if min_freq == 0 {
                0
            } else {
                1
            });
            proof {
                assert(seen.deep_view() =~= old_dv.push(token@));
                assert forall|j: int| 0 <= j < old_dv.len() implies occurrences(
                    s@.push(token@),
                    old_dv[j],
                ) == occurrences(s@, old_dv[j]) by {
                    assert(old_dv[j] != token@);
                }
            }
        },
    }
}

proof fn lemma_qualifying_push(seen: Seq<Seq<char>>, x: Seq<char>, s: Seq<Seq<char>>, min_freq: nat)
    ensures
        qualifying(seen.push(x), s, min_freq) == qualifying(seen, s, min_freq) + if occurrences(
            s,
            x,
        ) >= min_freq {
            seq![x]
        } else {
            Seq::<Seq<char>>::empty()
        },
{
    assert(seen.push(x).drop_last() =~= seen);
    assert(seen.push(x).last() == x);
}

proof fn lemma_token_stream_snoc(rows: Seq<Seq<Seq<char>>>, i: int)
    requires
        0 <= i < rows.len(),
    ensures
        token_stream(rows.take(i + 1)) == token_stream(rows.take(i)) + rows[i],
{
    assert(rows.take(i + 1).drop_last() =~= rows.take(i));
    assert(rows.take(i + 1).last() == rows[i]);
}

/// Vocabulary construction is deterministic: two builds from equal tokenized
/// corpora under the same threshold produce the same table, and therefore
/// assign every token the same id.
pub proof fn lemma_build_deterministic(
    rows1: Seq<Seq<Seq<char>>>,
    rows2: Seq<Seq<Seq<char>>>,
    min_freq: nat,
    t: Seq<char>,
)
    requires
        rows1 == rows2,
    ensures
        vocab_tokens(rows1, min_freq) == vocab_tokens(rows2, min_freq),
        spec_get_id(vocab_tokens(rows1, min_freq), t) == spec_get_id(
            vocab_tokens(rows2, min_freq),
            t,
        ),
{
}

/// A token↔id mapping. The table is the id-to-token direction; the id of a
/// token is its position in the table.
pub struct Vocab {
    id_to_token: Vec<String>,
}

impl View for Vocab {
    type V = Seq<Seq<char>>;

    closed spec fn view(&self) -> Seq<Seq<char>> {
        self.id_to_token.deep_view()
    }
}

impl Vocab {
    /// Both reserved tokens are registered, at their reserved ids, and the
    /// table never outgrows the id width.
    pub open spec fn wf(&self) -> bool {
        &&& self@.len() >= 2
        &&& self@.len() <= u32::MAX
        &&& self@[PAD_ID as int] == pad_token()
        &&& self@[UNK_ID as int] == unk_token()
    }

    fn new() -> (r: Vocab)
        ensures
            r@ == reserved_tokens(),
            r.wf(),
    {
        let mut id_to_token: Vec<String> = Vec::new();
        id_to_token.push(String::from_str("<pad>"));
        id_to_token.push(String::from_str("<unk>"));
        let r = Vocab { id_to_token };
        proof {
            assert(r@ =~= reserved_tokens());
        }
        r
    }

    /// Build a vocabulary from a tokenized corpus: the reserved entries, then
    /// an id for every distinct token occurring at least `min_freq` times, in
    /// the order the tokens are first seen.
    pub fn build(dataset: &crate::dataset::TokenizedDataset, min_freq: usize) -> (r: Vocab)
        ensures
            r@ == vocab_tokens(dataset.rows(), min_freq as nat),
            r.wf(),
    {
        let ghost rows = dataset.rows();
        let mut seen: Vec<String> = Vec::new();
        let mut counts: Vec<usize> = Vec::new();
        let ghost mut s = Seq::<Seq<char>>::empty();
        proof {
            assert(rows.take(0) =~= Seq::<Seq<Seq<char>>>::empty());
            assert(seen.deep_view() =~= Seq::<Seq<char>>::empty());
        }
        let n = dataset.token_squences.len();
        for i in 0..n
            invariant
                n == dataset.token_squences@.len(),
                rows == dataset.rows(),
                s == token_stream(rows.take(i as int)),
                counting_inv(seen.deep_view(), counts@, s, min_freq as nat),
        {
            let row = &dataset.token_squences[i];
            proof {
                assert(row.deep_view() =~= rows[i as int]);
                assert(rows[i as int].take(0) =~= Seq::<Seq<char>>::empty());
                assert(s =~= token_stream(rows.take(i as int)) + rows[i as int].take(0));
            }
            let m = row.len();
            for j in 0..m
                invariant
                    n == dataset.token_squences@.len(),
                    rows == dataset.rows(),
                    i < n,
                    m == row@.len(),
                    row.deep_view() == rows[i as int],
                    s == token_stream(rows.take(i as int)) + rows[i as int].take(j as int),
                    counting_inv(seen.deep_view(), counts@, s, min_freq as nat),
            {
                let token = &row[j];
                note_token(&mut seen, &mut counts, token, min_freq, Ghost(s));
                proof {
                    assert(token@ == rows[i as int][j as int]);
                    assert(rows[i as int].take(j as int).push(rows[i as int][j as int]) =~= rows[
                        i as int
                    ].take(j as int + 1));
                    s = s.push(token@);
                    assert(s =~= token_stream(rows.take(i as int)) + rows[i as int].take(
                        j as int + 1,
                    ));
                }
            }
            proof {
                assert(rows[i as int].take(m as int) =~= rows[i as int]);
                lemma_token_stream_snoc(rows, i as int);
                assert(s == token_stream(rows.take(i as int + 1)));
            }
        }
        proof {
            assert(rows.take(n as int) =~= rows);
        }
        let mut vocab = Vocab::new();
        let ghost seen_dv = seen.deep_view();
        proof {
            assert(seen_dv.take(0) =~= Seq::<Seq<char>>::empty());
            assert(reserved_tokens() + qualifying(seen_dv.take(0), s, min_freq as nat)
                =~= reserved_tokens());
        }
        let k_end = seen.len();
        for k in 0..k_end
            invariant
                k_end == seen@.len(),
                seen_dv == seen.deep_view(),
                counting_inv(seen_dv, counts@, s, min_freq as nat),
                vocab@ == cap_table(
                    reserved_tokens() + qualifying(seen_dv.take(k as int), s, min_freq as nat),
                ),
                vocab.wf(),
        {
            let ghost qual_k = qualifying(seen_dv.take(k as int), s, min_freq as nat);
            let ghost full_k = reserved_tokens() + qual_k;
            proof {
                lemma_qualifying_push(seen_dv.take(k as int), seen_dv[k as int], s, min_freq as nat);
                assert(seen_dv.take(k as int).push(seen_dv[k as int]) =~= seen_dv.take(k as int + 1));
            }
            if counts[k] >= min_freq {
                proof {
                    assert(occurrences(s, seen_dv[k as int]) >= min_freq as nat);
                    assert(qualifying(seen_dv.take(k as int + 1), s, min_freq as nat) == qual_k
                        + seq![seen_dv[k as int]]);
                    assert(reserved_tokens() + qualifying(
                        seen_dv.take(k as int + 1),
                        s,
                        min_freq as nat,
                    ) =~= full_k.push(seen_dv[k as int]));
                }
                if vocab.id_to_token.len() < (u32::MAX as usize) {
                    let ghost old_v = vocab@;
                    let entry = seen[k].clone();
                    vocab.id_to_token.push(entry);
                    proof {
                        assert(vocab@ =~= old_v.push(seen_dv[k as int]));
                        assert(full_k.len() <= u32::MAX);
                        assert(cap_table(full_k.push(seen_dv[k as int])) == full_k.push(
                            seen_dv[k as int],
                        ));
                    }
                } else {
                    proof {
                        assert(vocab@.len() == u32::MAX);
                        assert(full_k.len() >= u32::MAX);
                        assert(full_k.push(seen_dv[k as int]).take(u32::MAX as int) =~= full_k.take(
                            u32::MAX as int,
                        ));
                        assert(cap_table(full_k.push(seen_dv[k as int])) == cap_table(full_k));
                    }
                }
            } else {
                proof {
                    assert(occurrences(s, seen_dv[k as int]) < min_freq as nat);
                    assert(reserved_tokens() + qualifying(
                        seen_dv.take(k as int + 1),
                        s,
                        min_freq as nat,
                    ) =~= full_k);
                }
            }
        }
        proof {
            assert(seen_dv.take(k_end as int) =~= seen_dv);
        }
        vocab
    }

    /// The id registered for `token`, the reserved unknown id when none is.
    /// This lookup is total: it never fails.
    pub fn get_id(&self, token: &str) -> (r: u32)
        requires
            self.wf(),
        ensures
            r == spec_get_id(self@, token@),
            !self@.contains(token@) ==> r == UNK_ID,
    {
        let owned: String = token.to_owned();
        let n = self.id_to_token.len();
        proof {
            assert(self@.take(n as int) =~= self@);
        }
        let mut i: usize = n;
        while i > 0
            invariant
                self.wf(),
                n == self@.len(),
                i <= n,
                owned@ == token@,
                last_index_of(self@, token@) == last_index_of(self@.take(i as int), token@),
            decreases i,
        {
            i = i - 1;
            let cand: &String = &self.id_to_token[i];
            proof {
                assert(self@.take(i as int + 1).last() == self@[i as int]);
                assert(self@.take(i as int + 1).drop_last() =~= self@.take(i as int));
            }
            if *cand == owned {
                proof {
                    assert(self@.take(i as int + 1).last() == token@);
                    assert(last_index_of(self@.take(i as int + 1), token@) == i as int);
                    lemma_last_index_of_properties(self@, token@);
                }
                return i as u32;
            }
        }
        proof {
            assert(self@.take(0) =~= Seq::<Seq<char>>::empty());
            lemma_last_index_of_properties(self@, token@);
        }
        UNK_ID
    }

    /// The number of registered ids, reserved entries included.
    pub fn len(&self) -> (r: usize)
        ensures
            r == self@.len(),
    {
        self.id_to_token.len()
    }
}

} // verus!
