//! The share orchestrator: split a secret into damage-tolerant wrapped
//! shares and a secret box, and combine recovered shares with the box back
//! into the secret.

use vstd::prelude::*;

use crate::damage::DamageLevel;
use crate::ecc::parity_len_ok;
use crate::error::ErrorKind;
use crate::objects::CryptoSecretbox;
use crate::serialization::{
    add_ecc_and_crc, recover_outcome, try_to_read_stored_data, wrap_ok, wrap_round_trip_ok,
    wrap_stream,
};
use crate::shamir::{
    chacha_open_of, combine_data_shares, combine_outcome, create_data_shares, is_selection,
    matches_outcome, shamir_combine_of, split_outcome_ok, zero_nonce_seq,
};

verus! {

/// The shape of a successful split, witnessed by the ephemeral key, the
/// raw key shares, and the indices of the raw shares whose wrapping
/// succeeded, in increasing order: exactly the shares whose wrap
/// precondition holds, none dropped.
pub open spec fn split_shape(
    key: Seq<u8>,
    raws: Seq<Seq<u8>>,
    idxs: Seq<int>,
    text: Seq<u8>,
    lvl: DamageLevel,
    count: u8,
    threshold: u8,
    wrapped: Seq<Seq<u8>>,
    ct: Seq<u8>,
    tag: Seq<u8>,
) -> bool {
    &&& split_outcome_ok(key, text, count, threshold, raws, ct, tag)
    &&& idxs.len() == wrapped.len()
    &&& (forall|i: int| 0 <= i < idxs.len() ==> 0 <= #[trigger] idxs[i] < raws.len())
    &&& (forall|i: int, j: int| 0 <= i < j < idxs.len() ==> idxs[i] < idxs[j])
    &&& (forall|i: int|
        0 <= i < idxs.len() ==> wrap_ok(raws[#[trigger] idxs[i]], lvl) && parity_len_ok(
            raws[idxs[i]],
            lvl,
        ) && wrapped[i] == wrap_stream(raws[idxs[i]], lvl))
    &&& (forall|i: int|
        0 <= i < raws.len() && #[trigger] wrap_ok(raws[i], lvl) ==> idxs.contains(i))
}

/// The wrapped streams match the raw shares the index list selects.
pub open spec fn wrapped_match(
    raws: Seq<Seq<u8>>,
    idxs: Seq<int>,
    wv: Seq<Seq<u8>>,
    lvl: DamageLevel,
) -> bool {
    &&& idxs.len() == wv.len()
    &&& (forall|m: int| 0 <= m < idxs.len() ==> 0 <= #[trigger] idxs[m] < raws.len())
    &&& (forall|m: int, j: int| 0 <= m < j < idxs.len() ==> idxs[m] < idxs[j])
    &&& (forall|m: int|
        0 <= m < idxs.len() ==> wrap_ok(raws[#[trigger] idxs[m]], lvl) && parity_len_ok(
            raws[idxs[m]],
            lvl,
        ) && wv[m] == wrap_stream(raws[idxs[m]], lvl))
}

/// Appending the wrap of a raw share past every selected index keeps the
/// wrapped streams matching the selection.
proof fn lemma_wrapped_match_push(
    raws: Seq<Seq<u8>>,
    idxs: Seq<int>,
    wv: Seq<Seq<u8>>,
    lvl: DamageLevel,
    i: int,
    ws: Seq<u8>,
)
    requires
        wrapped_match(raws, idxs, wv, lvl),
        forall|m: int| 0 <= m < idxs.len() ==> #[trigger] idxs[m] < i,
        0 <= i < raws.len(),
        wrap_ok(raws[i], lvl),
        parity_len_ok(raws[i], lvl),
        ws == wrap_stream(raws[i], lvl),
    ensures
        wrapped_match(raws, idxs.push(i), wv.push(ws), lvl),
{
    let idxs2 = idxs.push(i);
    let wv2 = wv.push(ws);
    assert forall|m: int| 0 <= m < idxs2.len() implies 0 <= #[trigger] idxs2[m] < raws.len() by {
        if m < idxs.len() {
            assert(idxs2[m] == idxs[m]);
        } else {
            assert(idxs2[m] == i);
        }
    };
    assert forall|m: int, j: int| 0 <= m < j < idxs2.len() implies idxs2[m] < idxs2[j] by {
        if j < idxs.len() {
            assert(idxs2[m] == idxs[m] && idxs2[j] == idxs[j]);
        } else {
            assert(idxs2[j] == i);
            assert(idxs2[m] == idxs[m]);
        }
    };
    assert forall|m: int|
        0 <= m < idxs2.len() implies wrap_ok(raws[#[trigger] idxs2[m]], lvl) && parity_len_ok(
        raws[idxs2[m]],
        lvl,
    ) && wv2[m] == wrap_stream(raws[idxs2[m]], lvl) by {
        if m < idxs.len() {
            assert(idxs2[m] == idxs[m]);
            assert(wv2[m] == wv[m]);
        } else {
            assert(idxs2[m] == i);
            assert(wv2[m] == ws);
        }
    };
}

/// A successful split under some key, raw shares and wrap selection.
pub open spec fn split_shape_exists(
    text: Seq<u8>,
    lvl: DamageLevel,
    count: u8,
    threshold: u8,
    wrapped: Seq<Seq<u8>>,
    ct: Seq<u8>,
    tag: Seq<u8>,
) -> bool {
    exists|key: Seq<u8>, raws: Seq<Seq<u8>>, idxs: Seq<int>|
        #[trigger] split_shape(key, raws, idxs, text, lvl, count, threshold, wrapped, ct, tag)
}

/// Split: seal the text under a fresh key, Shamir-split the key into
/// `count` shares with recovery threshold `threshold`, and wrap each key
/// share in a damage-tolerant container; a share whose wrapping fails is
/// dropped.
#[verifier::rlimit(60)]
pub fn split(
    text: &[u8],
    allowed_data_damage_level: &DamageLevel,
    count: u8,
    threshold: u8,
) -> (r: Result<(Vec<Vec<u8>>, CryptoSecretbox), ErrorKind>)
    requires
        allowed_data_damage_level.wf(),
    ensures
        count >= 1 && threshold >= 1 && threshold <= count && crate::shamir::aead_text_fits(
            text@.len(),
        ) ==> r is Ok,
        !(count >= 1 && threshold >= 1 && threshold <= count) ==> r is Err,
        r matches Ok(p) ==> split_shape_exists(
            text@,
            *allowed_data_damage_level,
            count,
            threshold,
            p.0.deep_view(),
            p.1.ciphertext@,
            p.1.tag@,
        ),
        r matches Err(e) ==> e == ErrorKind::AEADEncryptionError || (e
            == ErrorKind::ShamirsSecretSharingEncryptionError && !(count >= 1 && threshold >= 1
            && threshold <= count)),
{
    let lvl = allowed_data_damage_level;
    let created = match create_data_shares(text, count, threshold) {
        Ok(p) => p,
        Err(e) => {
            return Err(e);
        },
    };
    let raw_shares = created.0;
    let secret_box = created.1;
    let ghost raws = raw_shares.deep_view();
    let ghost gkey = choose|key: Seq<u8>|
        #[trigger] split_outcome_ok(
            key,
            text@,
            count,
            threshold,
            raws,
            secret_box.ciphertext@,
            secret_box.tag@,
        );
    let mut wrapped: Vec<Vec<u8>> = Vec::new();
    let ghost mut idxs: Seq<int> = Seq::empty();
    let n = raw_shares.len();
    let mut i: usize = 0;
    while i < n
        invariant
            n == raw_shares@.len(),
            i <= n,
            raws == raw_shares.deep_view(),
            lvl.wf(),
            split_outcome_ok(
                gkey,
                text@,
                count,
                threshold,
                raws,
                secret_box.ciphertext@,
                secret_box.tag@,
            ),
            forall|m: int| 0 <= m < idxs.len() ==> 0 <= #[trigger] idxs[m] < i as int,
            forall|j: int|
                0 <= j < i as int && #[trigger] wrap_ok(raws[j], *lvl) ==> idxs.contains(j),
            wrapped_match(raws, idxs, wrapped.deep_view(), *lvl),
        decreases n - i,
    {
        let ghost before = wrapped.deep_view();
        let ghost old_idxs = idxs;
        match add_ecc_and_crc(raw_shares[i].as_slice(), lvl) {
            Ok(ws) => {
                let ghost wsv = ws@;
                wrapped.push(ws);
                proof {
                    assert(raw_shares@[i as int]@ == raws[i as int]);
                    assert(raws.len() == raw_shares@.len());
                    let wv = wrapped.deep_view();
                    assert(wv =~~= before.push(wsv));
                    lemma_wrapped_match_push(raws, old_idxs, before, *lvl, i as int, wsv);
                    idxs = idxs.push(i as int);
                    assert(wrapped_match(raws, idxs, wv, *lvl));
                    assert(idxs[idxs.len() - 1] == i as int);
                    assert(idxs.contains(i as int));
                    assert forall|j: int|
                        0 <= j < i as int + 1 && #[trigger] wrap_ok(
                            raws[j],
                            *lvl,
                        ) implies idxs.contains(j) by {
                        if j < i as int {
                            let m = choose|m: int| 0 <= m < old_idxs.len() && old_idxs[m] == j;
                            assert(idxs[m] == j);
                        }
                    };
                }
            },
            Err(_) => {
                proof {
                    assert(!wrap_ok(raws[i as int], *lvl)) by {
                        assert(raw_shares@[i as int]@ == raws[i as int]);
                    };
                    assert(wrapped_match(raws, idxs, wrapped.deep_view(), *lvl));
                }
            },
        }
        i = i + 1;
    }
    let result = (wrapped, secret_box);
    proof {
        assert(raws.len() == count as int);
        assert(wrapped_match(raws, idxs, result.0.deep_view(), *lvl));
        assert(split_shape(
            gkey,
            raws,
            idxs,
            text@,
            *lvl,
            count,
            threshold,
            result.0.deep_view(),
            result.1.ciphertext@,
            result.1.tag@,
        ));
        assert(split_shape_exists(
            text@,
            *lvl,
            count,
            threshold,
            result.0.deep_view(),
            result.1.ciphertext@,
            result.1.tag@,
        ));
    }
    Ok(result)
}

/// An increasing selection of indices below `n` that contains every one of
/// them is the identity.
proof fn lemma_complete_selection(idxs: Seq<int>, n: int)
    requires
        0 <= n,
        forall|m: int| 0 <= m < idxs.len() ==> 0 <= #[trigger] idxs[m] < n,
        forall|m: int, j: int| 0 <= m < j < idxs.len() ==> idxs[m] < idxs[j],
        forall|i: int| 0 <= i < n ==> idxs.contains(i),
    ensures
        idxs == Seq::new(n as nat, |i: int| i),
    decreases n,
{
    if n == 0 {
        assert(idxs.len() == 0) by {
            if idxs.len() > 0 {
                assert(0 <= idxs[0] < n);
            }
        };
        assert(idxs =~= Seq::new(0nat, |i: int| i));
    } else {
        assert(idxs.contains(n - 1));
        assert(exists|q: int| 0 <= q < idxs.len() && idxs[q] == n - 1);
        let p = choose|p: int| 0 <= p < idxs.len() && idxs[p] == n - 1;
        assert(p == idxs.len() - 1) by {
            if p < idxs.len() - 1 {
                assert(idxs[p] < idxs[idxs.len() - 1]);
            }
        };
        let pre = idxs.take(idxs.len() - 1);
        assert(forall|m: int| 0 <= m < pre.len() ==> #[trigger] pre[m] == idxs[m]);
        assert forall|m: int| 0 <= m < pre.len() implies 0 <= #[trigger] pre[m] < n - 1 by {
            assert(idxs[m] < idxs[idxs.len() - 1]);
        };
        assert forall|i: int| 0 <= i < n - 1 implies pre.contains(i) by {
            assert(idxs.contains(i));
            assert(exists|q: int| 0 <= q < idxs.len() && idxs[q] == i);
            let q = choose|q: int| 0 <= q < idxs.len() && idxs[q] == i;
            assert(q != idxs.len() - 1);
            assert(pre[q] == i);
        };
        lemma_complete_selection(pre, n - 1);
        assert(idxs =~= Seq::new(n as nat, |i: int| i)) by {
            assert(idxs.len() == pre.len() + 1);
            assert(forall|m: int| 0 <= m < n - 1 ==> #[trigger] idxs[m] == pre[m]);
        };
    }
}

/// Law: when every raw share's wrap precondition holds — as it does for
/// the fixed-length key shares at any level a wrap accepts — a successful
/// split returns exactly `count` wrapped shares, the wrap of each raw
/// share in order.
pub proof fn lemma_split_complete(
    key: Seq<u8>,
    raws: Seq<Seq<u8>>,
    idxs: Seq<int>,
    text: Seq<u8>,
    lvl: DamageLevel,
    count: u8,
    threshold: u8,
    wrapped: Seq<Seq<u8>>,
    ct: Seq<u8>,
    tag: Seq<u8>,
)
    requires
        split_shape(key, raws, idxs, text, lvl, count, threshold, wrapped, ct, tag),
        forall|i: int| 0 <= i < raws.len() ==> #[trigger] wrap_ok(raws[i], lvl),
    ensures
        wrapped.len() == count as int,
        forall|m: int|
            0 <= m < wrapped.len() ==> #[trigger] wrapped[m] == wrap_stream(raws[m], lvl)
                && parity_len_ok(raws[m], lvl),
{
    let n = raws.len() as int;
    assert forall|i: int| 0 <= i < n implies idxs.contains(i) by {
        assert(wrap_ok(raws[i], lvl));
    };
    lemma_complete_selection(idxs, n);
    assert(idxs.len() == n);
    assert forall|m: int|
        0 <= m < wrapped.len() implies #[trigger] wrapped[m] == wrap_stream(raws[m], lvl)
        && parity_len_ok(raws[m], lvl) by {
        assert(idxs[m] == m);
    };
}

/// The payloads that recovery wins back from a list of streams, in order;
/// streams whose recovery fails contribute nothing.
pub open spec fn recovered_list(streams: Seq<Seq<u8>>) -> Seq<Seq<u8>>
    decreases streams.len(),
{
    if streams.len() == 0 {
        Seq::empty()
    } else {
        let rest = recovered_list(streams.skip(1));
        match recover_outcome(streams[0]) {
            Ok(v) => seq![v] + rest,
            Err(_) => rest,
        }
    }
}

/// Law: recovery filtering distributes over concatenation — appending
/// streams on which recovery fails leaves the recovered list, and with it
/// the outcome of a combine, unchanged.
pub proof fn lemma_recovered_list_concat(a: Seq<Seq<u8>>, b: Seq<Seq<u8>>)
    ensures
        recovered_list(a + b) == recovered_list(a) + recovered_list(b),
    decreases a.len(),
{
    if a.len() == 0 {
        assert(a + b =~= b);
        assert(recovered_list(a) + recovered_list(b) =~= recovered_list(b));
    } else {
        lemma_recovered_list_concat(a.skip(1), b);
        assert((a + b).skip(1) =~= a.skip(1) + b);
        assert((a + b)[0] == a[0]);
        match recover_outcome(a[0]) {
            Ok(v) => {
                assert(recovered_list(a + b) =~= recovered_list(a) + recovered_list(b));
            },
            Err(_) => {
                assert(recovered_list(a + b) =~= recovered_list(a) + recovered_list(b));
            },
        }
    }
}

/// Whether every stream in a list is the uncorrupted wrap of the matching
/// raw share, under conditions where the container round trip is exact.
pub open spec fn all_wrapped(streams: Seq<Seq<u8>>, raws: Seq<Seq<u8>>, lvl: DamageLevel) -> bool {
    streams.len() == raws.len() && (forall|i: int|
        0 <= i < raws.len() ==> wrap_round_trip_ok(#[trigger] raws[i], lvl) && streams[i]
            == wrap_stream(raws[i], lvl))
}

/// Combine: recover each wrapped share, drop the failures, Shamir-combine
/// what remains and open the secret box with the restored key.  A
/// plaintext is returned only when the restored key authenticates the box;
/// on uncorrupted wrapped shares the outcome is exactly the opened box.
pub fn combine(shares: Vec<Vec<u8>>, secret_box: &CryptoSecretbox) -> (r: Result<
    Vec<u8>,
    ErrorKind,
>)
    ensures
        matches_outcome(
            r,
            combine_outcome(
                recovered_list(shares.deep_view()),
                secret_box.ciphertext@,
                secret_box.tag@,
            ),
        ),
        r matches Ok(p) ==> exists|recs: Seq<Seq<u8>>|
            #[trigger] combine_outcome(recs, secret_box.ciphertext@, secret_box.tag@) == Ok::<
                Seq<u8>,
                ErrorKind,
            >(p@),
        forall|raws: Seq<Seq<u8>>, lvl: DamageLevel|
            #[trigger] all_wrapped(shares.deep_view(), raws, lvl) ==> matches_outcome(
                r,
                combine_outcome(raws, secret_box.ciphertext@, secret_box.tag@),
            ),
{
    let ghost sv = shares.deep_view();
    let mut recovered: Vec<Vec<u8>> = Vec::new();
    let n = shares.len();
    let mut i: usize = 0;
    proof {
        assert(sv.skip(0) =~= sv);
        assert(recovered.deep_view() + recovered_list(sv) =~~= recovered_list(sv));
        assert(forall|raws: Seq<Seq<u8>>, lvl: DamageLevel|
            #[trigger] all_wrapped(shares.deep_view(), raws, lvl) ==> recovered.deep_view()
                =~~= raws.take(0));
    }
    while i < n
        invariant
            n == shares@.len(),
            sv == shares.deep_view(),
            sv.len() == n,
            i <= n,
            recovered.deep_view() + recovered_list(sv.skip(i as int)) == recovered_list(sv),
            forall|raws: Seq<Seq<u8>>, lvl: DamageLevel|
                #[trigger] all_wrapped(shares.deep_view(), raws, lvl) ==> recovered.deep_view()
                    == raws.take(i as int),
        decreases n - i,
    {
        let ghost before = recovered.deep_view();
        proof {
            assert(sv.skip(i as int)[0] == sv[i as int]);
            assert(sv[i as int] == shares@[i as int]@);
            assert(sv.skip(i as int).skip(1) =~= sv.skip(i as int + 1));
        }
        match try_to_read_stored_data(shares[i].as_slice()) {
            Ok(v) => {
                let ghost vv = v@;
                recovered.push(v);
                proof {
                    assert(recovered.deep_view() =~~= before.push(vv));
                    assert(recover_outcome(sv[i as int]) == Ok::<Seq<u8>, ErrorKind>(vv));
                    assert(recovered_list(sv.skip(i as int)) == seq![vv] + recovered_list(
                        sv.skip(i as int + 1),
                    ));
                    assert(recovered.deep_view() + recovered_list(sv.skip(i as int + 1))
                        =~~= before + recovered_list(sv.skip(i as int)));
                    assert forall|raws: Seq<Seq<u8>>, lvl: DamageLevel|
                        #[trigger] all_wrapped(
                            shares.deep_view(),
                            raws,
                            lvl,
                        ) implies recovered.deep_view() == raws.take(i + 1) by {
                        assert(shares.deep_view()[i as int] == shares@[i as int]@);
                        assert(wrap_stream(raws[i as int], lvl) == shares@[i as int]@);
                        assert(vv == raws[i as int]);
                        assert(before.push(vv) =~~= raws.take(i + 1));
                    };
                }
            },
            Err(_) => {
                proof {
                    assert(recover_outcome(sv[i as int]) is Err);
                    assert(recovered_list(sv.skip(i as int)) == recovered_list(
                        sv.skip(i as int + 1),
                    ));
                    assert forall|raws: Seq<Seq<u8>>, lvl: DamageLevel|
                        #[trigger] all_wrapped(
                            shares.deep_view(),
                            raws,
                            lvl,
                        ) implies recovered.deep_view() == raws.take(i + 1) by {
                        assert(shares.deep_view()[i as int] == shares@[i as int]@);
                        assert(wrap_stream(raws[i as int], lvl) == shares@[i as int]@);
                        assert(false);
                    };
                }
            },
        }
        i = i + 1;
    }
    proof {
        assert(sv.skip(n as int) =~= Seq::<Seq<u8>>::empty());
        assert(recovered_list(Seq::<Seq<u8>>::empty()) =~= Seq::<Seq<u8>>::empty());
        assert(recovered.deep_view() + Seq::<Seq<u8>>::empty() =~~= recovered.deep_view());
        assert(recovered.deep_view() == recovered_list(sv));
    }
    let out = combine_data_shares(&recovered, secret_box);
    proof {
        assert forall|raws: Seq<Seq<u8>>, lvl: DamageLevel|
            #[trigger] all_wrapped(shares.deep_view(), raws, lvl) implies matches_outcome(
            out,
            combine_outcome(raws, secret_box.ciphertext@, secret_box.tag@),
        ) by {
            assert(recovered.deep_view() == raws.take(n as int));
            assert(raws.take(n as int) =~~= raws);
        };
        if out is Ok {
            let v = out->Ok_0;
            assert(combine_outcome(recovered.deep_view(), secret_box.ciphertext@, secret_box.tag@)
                == Ok::<Seq<u8>, ErrorKind>(v@));
        }
    }
    out
}

/// Law: any selection of at least `threshold` of the wrapped shares of a
/// successful split, handed with the split's secret box to a combine,
/// yields the split text exactly.  The selection may list the shares in
/// any order; the wrap geometry of each selected share must allow the
/// exact container round trip.
pub proof fn lemma_split_combine_round_trip(
    text: Seq<u8>,
    lvl: DamageLevel,
    count: u8,
    threshold: u8,
    key: Seq<u8>,
    raws: Seq<Seq<u8>>,
    idxs: Seq<int>,
    wrapped: Seq<Seq<u8>>,
    ct: Seq<u8>,
    tag: Seq<u8>,
    sel: Seq<int>,
)
    requires
        split_shape(key, raws, idxs, text, lvl, count, threshold, wrapped, ct, tag),
        is_selection(sel, wrapped.len() as int),
        sel.len() >= threshold as int,
        forall|i: int| 0 <= i < idxs.len() ==> wrap_round_trip_ok(#[trigger] raws[idxs[i]], lvl),
    ensures
        all_wrapped(
            sel.map_values(|j: int| wrapped[j]),
            sel.map_values(|j: int| raws[idxs[j]]),
            lvl,
        ),
        combine_outcome(sel.map_values(|j: int| raws[idxs[j]]), ct, tag) == Ok::<
            Seq<u8>,
            ErrorKind,
        >(text),
{
    let ws = sel.map_values(|j: int| wrapped[j]);
    let rsel = sel.map_values(|j: int| raws[idxs[j]]);
    assert forall|i: int|
        0 <= i < rsel.len() implies wrap_round_trip_ok(#[trigger] rsel[i], lvl) && ws[i]
        == wrap_stream(rsel[i], lvl) by {
        assert(rsel[i] == raws[idxs[sel[i]]]);
        assert(ws[i] == wrapped[sel[i]]);
    };
    assert(all_wrapped(ws, rsel, lvl));
    assert forall|i: int| 0 <= i < rsel.len() implies (#[trigger] rsel[i]).len() == 33 by {
        assert(rsel[i] == raws[idxs[sel[i]]]);
    };
    let comp = sel.map_values(|j: int| idxs[j]);
    assert forall|a: int, b: int| 0 <= a < b < comp.len() implies comp[a] != comp[b] by {
        assert(comp[a] == idxs[sel[a]]);
        assert(comp[b] == idxs[sel[b]]);
        if sel[a] < sel[b] {
            assert(idxs[sel[a]] < idxs[sel[b]]);
        } else {
            assert(sel[b] < sel[a]);
            assert(idxs[sel[b]] < idxs[sel[a]]);
        }
    };
    assert(is_selection(comp, count as int)) by {
        assert(forall|i: int| 0 <= i < comp.len() ==> 0 <= #[trigger] comp[i] < count as int);
    };
    assert(comp.len() >= threshold as int);
    assert(shamir_combine_of(comp.map_values(|j: int| raws[j])) == key);
    assert(comp.map_values(|j: int| raws[j]) =~= rsel);
    assert(chacha_open_of(key, zero_nonce_seq(), ct, tag) == Some(text));
    assert(!(exists|i: int| 0 <= i < rsel.len() && (#[trigger] rsel[i]).len() != 33));
    assert(combine_outcome(rsel, ct, tag) == Ok::<Seq<u8>, ErrorKind>(text));
}

} // verus!
