use vstd::prelude::*;

use vstd::relations::sorted_by;
use vstd::seq_lib::lemma_sorted_unique;
use vstd::seq_lib::group_to_multiset_ensures;

use crate::errors::FumError;
use crate::hash::{
    Digest, DIGEST_LEN, compute_sha256, concat_bytes, lex_leq_rel, lex_lt, sha256_of,
    lemma_lex_leq_total_ordering, lemma_lex_lt_asymmetric, lemma_lex_lt_connected,
    lemma_lex_lt_irreflexive, lemma_lex_lt_transitive,
};

verus! {

/// The byte sequences a sequence of digests holds.
pub open spec fn views(v: Seq<Digest>) -> Seq<Seq<u8>> {
    v.map_values(|d: Digest| d@)
}

pub proof fn lemma_views_push(s: Seq<Digest>, d: Digest)
    ensures
        views(s.push(d)) == views(s).push(d@),
{
    assert(views(s.push(d)) =~= views(s).push(d@));
}

pub proof fn lemma_views_insert(s: Seq<Digest>, k: int, d: Digest)
    requires
        0 <= k <= s.len(),
    ensures
        views(s.insert(k, d)) == views(s).insert(k, d@),
{
    assert(views(s.insert(k, d)) =~= views(s).insert(k, d@));
}

/// Combining two digests: the smaller under byte-lexicographic order is
/// concatenated first, and the pair is hashed. Deterministic and, by
/// [`lemma_combine_commutes`], commutative.
pub open spec fn combine_of(a: Seq<u8>, b: Seq<u8>) -> Seq<u8> {
    if lex_lt(a, b) {
        sha256_of(a + b)
    } else {
        sha256_of(b + a)
    }
}

/// Combining is order-independent: the two inputs are reordered before
/// concatenation, so sibling order never matters.
pub proof fn lemma_combine_commutes(a: Seq<u8>, b: Seq<u8>)
    ensures
        combine_of(a, b) == combine_of(b, a),
{
    lemma_lex_lt_asymmetric(a, b);
    lemma_lex_lt_connected(a, b);
    lemma_lex_lt_irreflexive(a);
}

/// One folding step: consecutive pairs are each combined into one digest;
/// an odd trailing entry passes through unchanged.
pub open spec fn fold_level(level: Seq<Seq<u8>>) -> Seq<Seq<u8>>
    decreases level.len(),
{
    if level.len() >= 2 {
        seq![combine_of(level[0], level[1])] + fold_level(level.skip(2))
    } else {
        level
    }
}

pub proof fn lemma_fold_level_len(level: Seq<Seq<u8>>)
    ensures
        fold_level(level).len() == (level.len() + 1) / 2,
    decreases level.len(),
{
    if level.len() >= 2 {
        lemma_fold_level_len(level.skip(2));
    }
}

/// The folded level holds the combination of each consecutive pair.
pub proof fn lemma_fold_level_index(level: Seq<Seq<u8>>, i: int)
    requires
        0 <= i,
        i % 2 == 0,
        i + 1 < level.len(),
    ensures
        fold_level(level).len() == (level.len() + 1) / 2,
        i / 2 < fold_level(level).len(),
        fold_level(level)[i / 2] == combine_of(level[i], level[i + 1]),
    decreases i,
{
    lemma_fold_level_len(level);
    if i >= 2 {
        lemma_fold_level_index(level.skip(2), i - 2);
        assert(level.skip(2)[i - 2] == level[i]);
        assert(level.skip(2)[i - 1] == level[i + 1]);
        assert(fold_level(level)[i / 2] == fold_level(level.skip(2))[i / 2 - 1]);
    }
}

/// An odd level's unmatched tail passes through to the folded level.
pub proof fn lemma_fold_level_tail(level: Seq<Seq<u8>>)
    requires
        level.len() % 2 == 1,
    ensures
        fold_level(level).len() == (level.len() + 1) / 2,
        fold_level(level).last() == level.last(),
    decreases level.len(),
{
    lemma_fold_level_len(level);
    if level.len() >= 2 {
        lemma_fold_level_tail(level.skip(2));
        lemma_fold_level_len(level.skip(2));
        assert(level.skip(2).last() == level.last());
    }
}

/// The root of an already-sorted level: repeated folding until one digest
/// remains. An empty level has no root and is mapped to the empty sequence.
pub open spec fn root_of_level(level: Seq<Seq<u8>>) -> Seq<u8>
    decreases level.len(),
    via root_of_level_dec
{
    if level.len() <= 1 {
        if level.len() == 1 {
            level[0]
        } else {
            Seq::empty()
        }
    } else {
        root_of_level(fold_level(level))
    }
}

#[via_fn]
proof fn root_of_level_dec(level: Seq<Seq<u8>>) {
    if level.len() >= 2 {
        lemma_fold_level_len(level);
    }
}

/// The leaves in canonical ascending order.
pub open spec fn sorted_leaves(leaves: Seq<Seq<u8>>) -> Seq<Seq<u8>> {
    leaves.sort_by(lex_leq_rel())
}

/// The root digest committing to a leaf set: the leaves are sorted, then
/// folded level by level until one digest remains.
pub open spec fn root_of(leaves: Seq<Seq<u8>>) -> Seq<u8> {
    root_of_level(sorted_leaves(leaves))
}

/// The root is invariant under permutation of the leaf presentation
/// order: only the multiset of leaves matters.
pub proof fn lemma_root_of_permutation(s1: Seq<Seq<u8>>, s2: Seq<Seq<u8>>)
    requires
        s1.to_multiset() == s2.to_multiset(),
    ensures
        root_of(s1) == root_of(s2),
{
    lemma_lex_leq_total_ordering();
    s1.lemma_sort_by_ensures(lex_leq_rel());
    s2.lemma_sort_by_ensures(lex_leq_rel());
    lemma_sorted_unique(sorted_leaves(s1), sorted_leaves(s2), lex_leq_rel());
}

/// Folding a membership proof: starting from the leaf, each recorded
/// sibling is combined in, bottom-up.
pub open spec fn fold_proof(proof: Seq<Seq<u8>>, leaf: Seq<u8>) -> Seq<u8>
    decreases proof.len(),
{
    if proof.len() == 0 {
        leaf
    } else {
        fold_proof(proof.drop_first(), combine_of(proof[0], leaf))
    }
}

pub proof fn lemma_fold_proof_push(proof: Seq<Seq<u8>>, x: Seq<u8>, leaf: Seq<u8>)
    ensures
        fold_proof(proof.push(x), leaf) == combine_of(x, fold_proof(proof, leaf)),
    decreases proof.len(),
{
    if proof.len() == 0 {
        assert(proof.push(x).drop_first() =~= Seq::<Seq<u8>>::empty());
        assert(proof.push(x)[0] == x);
        assert(fold_proof(Seq::<Seq<u8>>::empty(), combine_of(x, leaf)) == combine_of(x, leaf));
        assert(fold_proof(proof.push(x), leaf) == fold_proof(
            proof.push(x).drop_first(),
            combine_of(x, leaf),
        ));
    } else {
        assert(proof.push(x)[0] == proof[0]);
        assert(proof.push(x).drop_first() =~= proof.drop_first().push(x));
        lemma_fold_proof_push(proof.drop_first(), x, combine_of(proof[0], leaf));
    }
}

/// The sibling of the first complete pair of a level that holds `hash`,
/// scanning consecutive pairs from the front; none when no complete
/// pair holds it — in particular when `hash` stands only as the
/// unmatched tail of an odd level.
pub open spec fn pair_sibling(level: Seq<Seq<u8>>, hash: Seq<u8>) -> Option<Seq<u8>>
    decreases level.len(),
{
    if level.len() < 2 {
        None
    } else if level[0] == hash {
        Some(level[1])
    } else if level[1] == hash {
        Some(level[0])
    } else {
        pair_sibling(level.skip(2), hash)
    }
}

/// A found sibling names a complete pair of the level.
pub proof fn lemma_pair_sibling_found(level: Seq<Seq<u8>>, hash: Seq<u8>, sib: Seq<u8>)
    requires
        pair_sibling(level, hash) == Some(sib),
    ensures
        exists|i: int|
            0 <= i && i % 2 == 0 && i + 1 < level.len() && ((#[trigger] level[i] == hash && sib
                == level[i + 1]) || (level[i + 1] == hash && sib == level[i])),
    decreases level.len(),
{
    if level.len() >= 2 {
        if level[0] == hash || level[1] == hash {
            assert(0int % 2 == 0 && 0 + 1 < level.len() && ((level[0] == hash && sib == level[1])
                || (level[1] == hash && sib == level[0])));
        } else {
            lemma_pair_sibling_found(level.skip(2), hash, sib);
            let j = choose|j: int|
                0 <= j && j % 2 == 0 && j + 1 < level.skip(2).len() && ((#[trigger] level.skip(
                    2,
                )[j] == hash && sib == level.skip(2)[j + 1]) || (level.skip(2)[j + 1] == hash
                    && sib == level.skip(2)[j]));
            assert(level.skip(2)[j] == level[j + 2] && level.skip(2)[j + 1] == level[j + 3]);
            assert(0 <= j + 2 && (j + 2) % 2 == 0 && (j + 2) + 1 < level.len() && ((level[j + 2]
                == hash && sib == level[j + 3]) || (level[j + 3] == hash && sib == level[j + 2])));
        }
    }
}

/// The membership proof for `hash` within an already-sorted level: one
/// sibling per folding level, bottom-up. At each level the first
/// complete pair holding the digest contributes its sibling and the
/// digest becomes their combination; a level whose unmatched tail holds
/// the digest contributes no entry, and the digest carries through
/// unchanged — exactly as [`fold_level`] carries it.
pub open spec fn proof_entries(level: Seq<Seq<u8>>, hash: Seq<u8>) -> Seq<Seq<u8>>
    decreases level.len(),
    via proof_entries_dec
{
    if level.len() <= 1 {
        Seq::empty()
    } else {
        match pair_sibling(level, hash) {
            Option::Some(sib) => seq![sib] + proof_entries(
                fold_level(level),
                combine_of(hash, sib),
            ),
            Option::None => proof_entries(fold_level(level), hash),
        }
    }
}

#[via_fn]
proof fn proof_entries_dec(level: Seq<Seq<u8>>, hash: Seq<u8>) {
    if level.len() >= 2 {
        lemma_fold_level_len(level);
    }
}

/// A proof is always shorter than the leaf set: at most one sibling per
/// folding level, and none for a level passed through as the tail.
pub proof fn lemma_proof_entries_len(level: Seq<Seq<u8>>, hash: Seq<u8>)
    requires
        level.len() >= 1,
    ensures
        proof_entries(level, hash).len() <= level.len() - 1,
    decreases level.len(),
{
    if level.len() >= 2 {
        lemma_fold_level_len(level);
        match pair_sibling(level, hash) {
            Option::Some(sib) => {
                lemma_proof_entries_len(fold_level(level), combine_of(hash, sib));
            },
            Option::None => {
                lemma_proof_entries_len(fold_level(level), hash);
            },
        }
    }
}

/// The combination of two digests.
pub fn combined_hash(hash1: &Digest, hash2: &Digest) -> (r: Digest)
    ensures
        r@ == combine_of(hash1@, hash2@),
        r@.len() == DIGEST_LEN,
{
    let joined = if hash1.lt(hash2) {
        concat_bytes(hash1.as_bytes(), hash2.as_bytes())
    } else {
        concat_bytes(hash2.as_bytes(), hash1.as_bytes())
    };
    compute_sha256(joined.as_slice())
}

/// A copy of the digests in canonical ascending order.
fn sort_digests(v: &Vec<Digest>) -> (r: Vec<Digest>)
    ensures
        views(r@).to_multiset() == views(v@).to_multiset(),
        sorted_by(views(r@), lex_leq_rel()),
        views(r@) == sorted_leaves(views(v@)),
        r@.len() == v@.len(),
{
    broadcast use group_to_multiset_ensures;

    let mut out: Vec<Digest> = Vec::new();
    let mut i: usize = 0;
    while i < v.len()
        invariant
            i <= v@.len(),
            sorted_by(views(out@), lex_leq_rel()),
            views(out@).to_multiset() == views(v@.take(i as int)).to_multiset(),
            out@.len() == i,
        decreases v@.len() - i,
    {
        let d = v[i].dup();
        let mut k: usize = 0;
        while k < out.len() && !d.lt(&out[k])
            invariant
                k <= out@.len(),
                forall|j: int| 0 <= j < k ==> !lex_lt(d@, views(out@)[j]),
            decreases out@.len() - k,
        {
            k = k + 1;
        }
        proof {
            let ghost old_views = views(out@);
            let ghost new_views = old_views.insert(k as int, d@);
            lemma_views_insert(out@, k as int, d);
            assert forall|p: int, q: int| 0 <= p < q < new_views.len() implies lex_leq_rel()(
                new_views[p],
                new_views[q],
            ) by {
                let a = new_views[p];
                let b = new_views[q];
                if p < k && q == k {
                    lemma_lex_lt_connected(d@, old_views[p]);
                } else if p == k {
                    assert(b == old_views[q - 1]);
                    assert(lex_lt(d@, old_views[k as int]));
                    if q - 1 > k {
                        assert(lex_leq_rel()(old_views[k as int], old_views[q - 1]));
                        lemma_lex_lt_transitive(d@, old_views[k as int], old_views[q - 1]);
                    }
                } else if p < k && q > k {
                    assert(a == old_views[p] && b == old_views[q - 1]);
                    if p < q - 1 {
                        assert(lex_leq_rel()(old_views[p], old_views[q - 1]));
                    }
                } else if p > k {
                    assert(a == old_views[p - 1] && b == old_views[q - 1]);
                    assert(lex_leq_rel()(old_views[p - 1], old_views[q - 1]));
                } else {
                    assert(a == old_views[p] && b == old_views[q]);
                    assert(lex_leq_rel()(old_views[p], old_views[q]));
                }
            }
            vstd::seq_lib::to_multiset_insert(old_views, k as int, d@);
            assert(new_views.to_multiset() == old_views.to_multiset().insert(d@));
            assert(v@.take(i + 1) =~= v@.take(i as int).push(v@[i as int]));
            lemma_views_push(v@.take(i as int), v@[i as int]);
            assert(views(v@.take(i + 1)) == views(v@.take(i as int)).push(v@[i as int]@));
            assert(views(v@.take(i + 1)).to_multiset() == views(v@.take(i as int)).push(
                v@[i as int]@,
            ).to_multiset());
            vstd::seq_lib::to_multiset_build(views(v@.take(i as int)), v@[i as int]@);
            assert(views(v@.take(i + 1)).to_multiset() == views(
                v@.take(i as int),
            ).to_multiset().insert(v@[i as int]@));
            assert(new_views.to_multiset() == views(v@.take(i + 1)).to_multiset());
        }
        out.insert(k, d);
        proof {
            assert(views(out@).to_multiset() == views(v@.take(i + 1)).to_multiset());
        }
        i = i + 1;
    }
    proof {
        assert(v@.take(i as int) =~= v@);
        lemma_lex_leq_total_ordering();
        views(v@).lemma_sort_by_ensures(lex_leq_rel());
        lemma_sorted_unique(views(out@), sorted_leaves(views(v@)), lex_leq_rel());
    }
    out
}

/// One folding step over a level of digests.
fn root_hash_step(hash_vec: &Vec<Digest>) -> (r: Vec<Digest>)
    ensures
        views(r@) == fold_level(views(hash_vec@)),
{
    let ghost s = views(hash_vec@);
    let mut out: Vec<Digest> = Vec::new();
    let mut i: usize = 0;
    proof {
        assert(s.skip(0) =~= s);
        assert(views(out@) + fold_level(s) =~= fold_level(s));
    }
    while i < hash_vec.len()
        invariant
            i <= hash_vec@.len(),
            s == views(hash_vec@),
            views(out@) + fold_level(s.skip(i as int)) == fold_level(s),
        decreases hash_vec@.len() - i,
    {
        if i + 1 < hash_vec.len() {
            let c = combined_hash(&hash_vec[i], &hash_vec[i + 1]);
            proof {
                let rest = s.skip(i as int);
                assert(rest[0] == s[i as int] && rest[1] == s[i + 1]);
                assert(rest.skip(2) =~= s.skip(i + 2));
                assert(fold_level(rest) == seq![combine_of(s[i as int], s[i + 1])] + fold_level(
                    s.skip(i + 2),
                ));
                lemma_views_push(out@, c);
                assert(views(out@.push(c)) + fold_level(s.skip(i + 2)) =~= views(out@)
                    + fold_level(rest));
            }
            out.push(c);
            i = i + 2;
        } else {
            let d = hash_vec[i].dup();
            proof {
                let rest = s.skip(i as int);
                assert(rest.len() == 1);
                assert(fold_level(rest) == rest);
                assert(rest =~= seq![s[i as int]]);
                lemma_views_push(out@, d);
                assert(views(out@.push(d)) + fold_level(s.skip(i + 1)) =~= views(out@)
                    + fold_level(rest));
                assert(s.skip(i + 1) =~= Seq::<Seq<u8>>::empty());
            }
            out.push(d);
            i = i + 1;
        }
    }
    proof {
        assert(s.skip(i as int) =~= Seq::<Seq<u8>>::empty());
        assert(views(out@) + fold_level(s.skip(i as int)) =~= views(out@));
    }
    out
}

/// The root digest of a non-empty leaf set; an empty set is an
/// [`FumError::EmptyInput`]. The result depends only on the multiset of
/// leaves, never on their order.
pub fn root_hash(hash_vec: &Vec<Digest>) -> (r: Result<Digest, FumError>)
    ensures
        hash_vec@.len() > 0 ==> (r matches Ok(d) && d@ == root_of(views(hash_vec@))),
        hash_vec@.len() == 0 ==> r == Err::<Digest, FumError>(FumError::EmptyInput),
{
    if hash_vec.len() == 0 {
        return Err(FumError::EmptyInput);
    }
    let mut level = sort_digests(hash_vec);
    while level.len() > 1
        invariant
            level@.len() >= 1,
            root_of_level(views(level@)) == root_of(views(hash_vec@)),
        decreases level@.len(),
    {
        proof {
            lemma_fold_level_len(views(level@));
            assert(root_of_level(views(level@)) == root_of_level(fold_level(views(level@))));
        }
        level = root_hash_step(&level);
    }
    let d = level[0].dup();
    proof {
        assert(root_of_level(views(level@)) == views(level@)[0]);
    }
    Ok(d)
}

/// Scan a level's consecutive pairs for the first complete pair holding
/// `hash`.
///
/// `Ok(sibling)` is the other digest of that pair, exactly
/// [`pair_sibling`]. `Err(true)` says that no complete pair holds the
/// digest and that it is the level's unmatched tail, which passes
/// through unchanged. `Err(false)` says that `hash` does not occur in
/// the level at all.
fn find_proof_pair(hash_vec: &Vec<Digest>, hash: &Digest) -> (r: Result<Digest, bool>)
    ensures
        (r matches Ok(sib) ==> pair_sibling(views(hash_vec@), hash@) == Some(sib@)),
        r == Err::<Digest, bool>(true) ==> views(hash_vec@).len() % 2 == 1 && views(
            hash_vec@,
        ).last() == hash@ && pair_sibling(views(hash_vec@), hash@) is None,
        r == Err::<Digest, bool>(false) ==> !views(hash_vec@).contains(hash@),
{
    let ghost s = views(hash_vec@);
    let mut i: usize = 0;
    proof {
        assert(s.skip(0) =~= s);
    }
    while i < hash_vec.len()
        invariant
            s == views(hash_vec@),
            i % 2 == 0,
            i <= hash_vec@.len(),
            forall|j: int| 0 <= j < i ==> s[j] != hash@,
            pair_sibling(s, hash@) == pair_sibling(s.skip(i as int), hash@),
        decreases hash_vec@.len() - i,
    {
        let ghost rest = s.skip(i as int);
        if i == hash_vec.len() - 1 {
            let is_ok = hash_vec[i].eq_digest(hash);
            proof {
                assert(rest.len() == 1);
                assert(pair_sibling(rest, hash@) is None);
                if !is_ok {
                    assert(forall|j: int| 0 <= j < s.len() ==> s[j] != hash@);
                }
            }
            return Err(is_ok);
        }
        proof {
            assert(rest.len() >= 2);
            assert(rest[0] == s[i as int] && rest[1] == s[i + 1]);
        }
        if hash_vec[i].eq_digest(hash) {
            let sib = hash_vec[i + 1].dup();
            proof {
                assert(pair_sibling(rest, hash@) == Some(sib@));
            }
            return Ok(sib);
        }
        if hash_vec[i + 1].eq_digest(hash) {
            let sib = hash_vec[i].dup();
            proof {
                assert(pair_sibling(rest, hash@) == Some(sib@));
            }
            return Ok(sib);
        }
        proof {
            assert(pair_sibling(rest, hash@) == pair_sibling(rest.skip(2), hash@));
            assert(rest.skip(2) =~= s.skip(i + 2));
        }
        i = i + 2;
    }
    proof {
        assert(forall|j: int| 0 <= j < s.len() ==> s[j] != hash@);
    }
    Err(false)
}

/// The membership proof for `hash` within the leaf set `hash_vec`: one
/// sibling per level traversed bottom-up, skipping levels where the
/// digest is the unmatched tail — exactly [`proof_entries`] over the
/// sorted leaves, so its length can fall short of the tree's height. A
/// digest absent from the leaf set is a [`FumError::NotFound`].
///
/// The returned proof folds back to the set's root: together with the
/// contracts of [`root_hash`] and [`verify_proof`], every leaf of a set
/// verifies against the set's root with its generated proof.
pub fn get_proof(hash_vec: &Vec<Digest>, hash: &Digest) -> (r: Result<Vec<Digest>, FumError>)
    ensures
        views(hash_vec@).contains(hash@) ==> (r matches Ok(p) && views(p@) == proof_entries(
            sorted_leaves(views(hash_vec@)),
            hash@,
        ) && fold_proof(views(p@), hash@) == root_of(views(hash_vec@))),
        !views(hash_vec@).contains(hash@) ==> r == Err::<Vec<Digest>, FumError>(FumError::NotFound),
{
    broadcast use group_to_multiset_ensures;

    let ghost target = proof_entries(sorted_leaves(views(hash_vec@)), hash@);
    let mut level = sort_digests(hash_vec);
    let mut current = hash.dup();
    let mut proof_vec: Vec<Digest> = Vec::new();
    proof {
        assert(views(level@).to_multiset().count(hash@) == views(
            hash_vec@,
        ).to_multiset().count(hash@));
        assert(views(level@).contains(current@) <==> views(hash_vec@).contains(hash@));
        assert(views(proof_vec@) + proof_entries(views(level@), current@) =~= target);
    }
    while level.len() > 1
        invariant
            target == proof_entries(sorted_leaves(views(hash_vec@)), hash@),
            fold_proof(views(proof_vec@), hash@) == current@,
            views(proof_vec@) + proof_entries(views(level@), current@) == target,
            root_of_level(views(level@)) == root_of(views(hash_vec@)),
            views(level@).contains(current@) <==> views(hash_vec@).contains(hash@),
        decreases level@.len(),
    {
        let ghost lv = views(level@);
        match find_proof_pair(&level, &current) {
            Ok(sib) => {
                let next = combined_hash(&current, &sib);
                proof {
                    lemma_views_push(proof_vec@, sib);
                    lemma_fold_proof_push(views(proof_vec@), sib@, hash@);
                    lemma_pair_sibling_found(lv, current@, sib@);
                    let i = choose|i: int|
                        0 <= i && i % 2 == 0 && i + 1 < lv.len() && ((#[trigger] lv[i] == current@
                            && sib@ == lv[i + 1]) || (lv[i + 1] == current@ && sib@ == lv[i]));
                    lemma_fold_level_index(lv, i);
                    lemma_combine_commutes(current@, sib@);
                    assert(fold_level(lv)[i / 2] == next@);
                    assert(fold_level(lv).contains(next@));
                    assert(lv.contains(current@));
                    assert(proof_entries(lv, current@) == seq![sib@] + proof_entries(
                        fold_level(lv),
                        next@,
                    ));
                    assert(views(proof_vec@.push(sib)) + proof_entries(fold_level(lv), next@)
                        =~= views(proof_vec@) + proof_entries(lv, current@));
                }
                proof_vec.push(sib);
                current = next;
            },
            Err(found) => {
                if !found {
                    proof {
                        assert(!lv.contains(current@));
                    }
                    return Err(FumError::NotFound);
                }
                proof {
                    lemma_fold_level_tail(lv);
                    assert(fold_level(lv).contains(current@)) by {
                        assert(fold_level(lv).last() == current@);
                    }
                    assert(lv.contains(current@)) by {
                        assert(lv.last() == current@);
                    }
                    assert(proof_entries(lv, current@) == proof_entries(fold_level(lv), current@));
                }
            },
        }
        proof {
            lemma_fold_level_len(lv);
            assert(root_of_level(lv) == root_of_level(fold_level(lv)));
        }
        level = root_hash_step(&level);
    }
    if level.len() == 1 {
        proof {
            assert(views(level@).contains(current@) <==> views(level@)[0] == current@) by {
                if views(level@).contains(current@) {
                    let j = choose|j: int|
                        0 <= j < views(level@).len() && views(level@)[j] == current@;
                    assert(j == 0);
                }
            }
        }
        if level[0].eq_digest(&current) {
            proof {
                assert(root_of_level(views(level@)) == views(level@)[0]);
                assert(proof_entries(views(level@), current@) == Seq::<Seq<u8>>::empty());
                assert(views(proof_vec@) + Seq::<Seq<u8>>::empty() =~= views(proof_vec@));
            }
            return Ok(proof_vec);
        }
        return Err(FumError::NotFound);
    }
    proof {
        assert(views(level@).len() == 0);
        assert(!views(level@).contains(current@));
    }
    Err(FumError::NotFound)
}

/// For every digest that is a member of the leaf set, the proof that
/// [`get_proof`] generates verifies against the root that [`root_hash`]
/// computes: this composition returns `true` on all such inputs, which
/// Verus proves from the two contracts and [`verify_proof`]'s.
pub fn proof_round_trip(hash_vec: &Vec<Digest>, hash: &Digest) -> (r: bool)
    requires
        views(hash_vec@).contains(hash@),
    ensures
        r,
{
    let root = match root_hash(hash_vec) {
        Ok(d) => d,
        Err(_) => {
            proof {
                assert(false);
            }
            return false;
        },
    };
    let p = match get_proof(hash_vec, hash) {
        Ok(p) => p,
        Err(_) => {
            proof {
                assert(false);
            }
            return false;
        },
    };
    verify_proof(&p, &root, hash)
}

/// Fold the proof's siblings into the leaf digest and compare the result
/// with the claimed root: `true` exactly when they agree byte for byte.
pub fn verify_proof(proof: &Vec<Digest>, root_hash: &Digest, hash: &Digest) -> (r: bool)
    ensures
        r == (fold_proof(views(proof@), hash@) == root_hash@),
{
    let mut current = hash.dup();
    let mut i: usize = 0;
    while i < proof.len()
        invariant
            i <= proof@.len(),
            current@ == fold_proof(views(proof@).take(i as int), hash@),
        decreases proof@.len() - i,
    {
        let next = combined_hash(&proof[i], &current);
        proof {
            assert(views(proof@).take(i + 1) =~= views(proof@).take(i as int).push(
                views(proof@)[i as int],
            ));
            lemma_fold_proof_push(views(proof@).take(i as int), views(proof@)[i as int], hash@);
        }
        current = next;
        i = i + 1;
    }
    proof {
        assert(views(proof@).take(i as int) =~= views(proof@));
    }
    current.eq_digest(root_hash)
}

} // verus!
