use vstd::prelude::*;

verus! {

use crate::store::{view_nodes, wf_nodes, wf_state, AppState, StateView};
use crate::vault::{entry_keys_unique, view_entries, Node, NodeView};
use vstd::bytes::{
    lemma_auto_spec_u32_to_from_le_bytes, lemma_auto_spec_u64_to_from_le_bytes,
    spec_u32_from_le_bytes, spec_u32_to_le_bytes, spec_u64_from_le_bytes, spec_u64_to_le_bytes,
    u32_from_le_bytes, u32_to_le_bytes, u64_from_le_bytes, u64_to_le_bytes,
};
use vstd::slice::slice_subrange;
use vstd::string::StrSliceExecFns;

// ---------------------------------------------------------------------------
// The canonical byte encoding of a store snapshot.
//
// Counts and lengths are 8-byte little-endian words; a character is its
// scalar value as a 4-byte little-endian word; a string is its length
// followed by its characters; a vault is name, id, entry count, entries and
// one status byte; a snapshot is the vault count and vaults followed by the
// replica count and replicas, with nothing after them.
// ---------------------------------------------------------------------------

pub open spec fn enc_u64(n: u64) -> Seq<u8> {
    spec_u64_to_le_bytes(n)
}

pub open spec fn enc_char(c: char) -> Seq<u8> {
    spec_u32_to_le_bytes(c as u32)
}

pub open spec fn enc_chars(s: Seq<char>) -> Seq<u8>
    decreases s.len(),
{
    if s.len() == 0 {
        Seq::empty()
    } else {
        enc_char(s[0]) + enc_chars(s.skip(1))
    }
}

pub open spec fn enc_str(s: Seq<char>) -> Seq<u8> {
    enc_u64(s.len() as u64) + enc_chars(s)
}

pub open spec fn enc_pairs(es: Seq<(Seq<char>, Seq<char>)>) -> Seq<u8>
    decreases es.len(),
{
    if es.len() == 0 {
        Seq::empty()
    } else {
        enc_str(es[0].0) + enc_str(es[0].1) + enc_pairs(es.skip(1))
    }
}

pub open spec fn enc_node(n: NodeView) -> Seq<u8> {
    enc_str(n.name) + enc_str(n.id) + enc_u64(n.entries.len() as u64) + enc_pairs(n.entries)
        + seq![(if n.status { 1u8 } else { 0u8 })]
}

pub open spec fn enc_nodes(ns: Seq<NodeView>) -> Seq<u8>
    decreases ns.len(),
{
    if ns.len() == 0 {
        Seq::empty()
    } else {
        enc_node(ns[0]) + enc_nodes(ns.skip(1))
    }
}

pub open spec fn enc_state(s: StateView) -> Seq<u8> {
    enc_u64(s.vaults.len() as u64) + enc_nodes(s.vaults) + enc_u64(s.replicas.len() as u64)
        + enc_nodes(s.replicas)
}

// The encoding stores every count as one 8-byte word, so it is faithful only
// for values whose counts fit; every value built from executable data does.

pub open spec fn str_fits(s: Seq<char>) -> bool {
    s.len() <= u64::MAX
}

pub open spec fn entries_fit(es: Seq<(Seq<char>, Seq<char>)>) -> bool {
    &&& es.len() <= u64::MAX
    &&& forall|i: int|
        0 <= i < es.len() ==> str_fits((#[trigger] es[i]).0) && str_fits(es[i].1)
}

pub open spec fn node_fits(n: NodeView) -> bool {
    str_fits(n.name) && str_fits(n.id) && entries_fit(n.entries)
}

pub open spec fn nodes_fit(ns: Seq<NodeView>) -> bool {
    &&& ns.len() <= u64::MAX
    &&& forall|i: int| 0 <= i < ns.len() ==> node_fits(#[trigger] ns[i])
}

pub open spec fn state_fits(s: StateView) -> bool {
    nodes_fit(s.vaults) && nodes_fit(s.replicas)
}

// ---------------------------------------------------------------------------
// The decoder, as a mathematical function from bytes to values. Each step
// yields the decoded value and the remaining bytes, or nothing on malformed
// input. Duplicate entry keys within one vault are rejected, so every decoded
// vault is well-formed.
// ---------------------------------------------------------------------------

pub open spec fn dec_u64(b: Seq<u8>) -> Option<(u64, Seq<u8>)> {
    if b.len() >= 8 {
        Some((spec_u64_from_le_bytes(b.take(8)), b.skip(8)))
    } else {
        None
    }
}

/// A Unicode scalar value: any code point outside the surrogate range.
pub open spec fn valid_scalar(u: u32) -> bool {
    u < 0xD800 || (0xE000 <= u && u <= 0x10FFFF)
}

pub open spec fn dec_char(b: Seq<u8>) -> Option<(char, Seq<u8>)> {
    if b.len() >= 4 {
        if valid_scalar(spec_u32_from_le_bytes(b.take(4))) {
            Some((spec_u32_from_le_bytes(b.take(4)) as char, b.skip(4)))
        } else {
            None
        }
    } else {
        None
    }
}

pub open spec fn dec_chars(count: nat, b: Seq<u8>) -> Option<(Seq<char>, Seq<u8>)>
    decreases count,
{
    if count == 0 {
        Some((Seq::empty(), b))
    } else {
        match dec_char(b) {
            Some((c, rest)) => match dec_chars((count - 1) as nat, rest) {
                Some((s, rest2)) => Some((seq![c] + s, rest2)),
                None => None,
            },
            None => None,
        }
    }
}

pub open spec fn dec_str(b: Seq<u8>) -> Option<(Seq<char>, Seq<u8>)> {
    match dec_u64(b) {
        Some((n, rest)) => dec_chars(n as nat, rest),
        None => None,
    }
}

pub open spec fn dec_pairs(count: nat, b: Seq<u8>) -> Option<
    (Seq<(Seq<char>, Seq<char>)>, Seq<u8>),
>
    decreases count,
{
    if count == 0 {
        Some((Seq::empty(), b))
    } else {
        match dec_str(b) {
            Some((k, r1)) => match dec_str(r1) {
                Some((v, r2)) => match dec_pairs((count - 1) as nat, r2) {
                    Some((es, r3)) => if exists|i: int| 0 <= i < es.len() && (#[trigger] es[i]).0
                        == k {
                        None
                    } else {
                        Some((seq![(k, v)] + es, r3))
                    },
                    None => None,
                },
                None => None,
            },
            None => None,
        }
    }
}

pub open spec fn dec_bool(b: Seq<u8>) -> Option<(bool, Seq<u8>)> {
    if b.len() >= 1 {
        if b[0] == 1u8 {
            Some((true, b.skip(1)))
        } else if b[0] == 0u8 {
            Some((false, b.skip(1)))
        } else {
            None
        }
    } else {
        None
    }
}

pub open spec fn dec_node(b: Seq<u8>) -> Option<(NodeView, Seq<u8>)> {
    match dec_str(b) {
        Some((name, r1)) => match dec_str(r1) {
            Some((id, r2)) => match dec_u64(r2) {
                Some((cnt, r3)) => match dec_pairs(cnt as nat, r3) {
                    Some((es, r4)) => match dec_bool(r4) {
                        Some((st, r5)) => Some(
                            (NodeView { name, id, entries: es, status: st }, r5),
                        ),
                        None => None,
                    },
                    None => None,
                },
                None => None,
            },
            None => None,
        },
        None => None,
    }
}

pub open spec fn dec_nodes(count: nat, b: Seq<u8>) -> Option<(Seq<NodeView>, Seq<u8>)>
    decreases count,
{
    if count == 0 {
        Some((Seq::empty(), b))
    } else {
        match dec_node(b) {
            Some((n, r1)) => match dec_nodes((count - 1) as nat, r1) {
                Some((ns, r2)) => Some((seq![n] + ns, r2)),
                None => None,
            },
            None => None,
        }
    }
}

pub open spec fn dec_state(b: Seq<u8>) -> Option<StateView> {
    match dec_u64(b) {
        Some((nv, r1)) => match dec_nodes(nv as nat, r1) {
            Some((vs, r2)) => match dec_u64(r2) {
                Some((nr, r3)) => match dec_nodes(nr as nat, r3) {
                    Some((rs, r4)) => if r4.len() == 0 {
                        Some(StateView { vaults: vs, replicas: rs })
                    } else {
                        None
                    },
                    None => None,
                },
                None => None,
            },
            None => None,
        },
        None => None,
    }
}

// ---------------------------------------------------------------------------
// The decoder inverts the encoder.
// ---------------------------------------------------------------------------

pub proof fn lemma_dec_enc_u64(n: u64, rest: Seq<u8>)
    ensures
        dec_u64(enc_u64(n) + rest) == Some((n, rest)),
{
    lemma_auto_spec_u64_to_from_le_bytes();
    assert((enc_u64(n) + rest).take(8) =~= enc_u64(n));
    assert((enc_u64(n) + rest).skip(8) =~= rest);
}

pub proof fn lemma_dec_enc_char(c: char, rest: Seq<u8>)
    ensures
        dec_char(enc_char(c) + rest) == Some((c, rest)),
{
    lemma_auto_spec_u32_to_from_le_bytes();
    assert((enc_char(c) + rest).take(4) =~= enc_char(c));
    assert((enc_char(c) + rest).skip(4) =~= rest);
}

pub proof fn lemma_dec_enc_chars(s: Seq<char>, rest: Seq<u8>)
    ensures
        dec_chars(s.len(), enc_chars(s) + rest) == Some((s, rest)),
    decreases s.len(),
{
    if s.len() == 0 {
        assert(enc_chars(s) + rest =~= rest);
        assert(dec_chars(0, rest) == Some((Seq::<char>::empty(), rest)));
        assert(s =~= Seq::<char>::empty());
    } else {
        let tail = s.skip(1);
        assert(enc_chars(s) + rest =~= enc_char(s[0]) + (enc_chars(tail) + rest));
        lemma_dec_enc_char(s[0], enc_chars(tail) + rest);
        lemma_dec_enc_chars(tail, rest);
        assert(seq![s[0]] + tail =~= s);
    }
}

pub proof fn lemma_dec_enc_str(s: Seq<char>, rest: Seq<u8>)
    requires
        str_fits(s),
    ensures
        dec_str(enc_str(s) + rest) == Some((s, rest)),
{
    assert(enc_str(s) + rest =~= enc_u64(s.len() as u64) + (enc_chars(s) + rest));
    lemma_dec_enc_u64(s.len() as u64, enc_chars(s) + rest);
    lemma_dec_enc_chars(s, rest);
    assert((s.len() as u64) as nat == s.len());
}

pub proof fn lemma_dec_enc_pairs(es: Seq<(Seq<char>, Seq<char>)>, rest: Seq<u8>)
    requires
        entries_fit(es),
        entry_keys_unique(es),
    ensures
        dec_pairs(es.len(), enc_pairs(es) + rest) == Some((es, rest)),
    decreases es.len(),
{
    if es.len() == 0 {
        assert(enc_pairs(es) + rest =~= rest);
        assert(es =~= Seq::<(Seq<char>, Seq<char>)>::empty());
    } else {
        let k = es[0].0;
        let v = es[0].1;
        let tail = es.skip(1);
        assert(enc_pairs(es) + rest =~= enc_str(k) + (enc_str(v) + (enc_pairs(tail) + rest)));
        lemma_dec_enc_str(k, enc_str(v) + (enc_pairs(tail) + rest));
        lemma_dec_enc_str(v, enc_pairs(tail) + rest);
        assert forall|i: int, j: int| 0 <= i < j < tail.len() implies (#[trigger] tail[i]).0 != (
        #[trigger] tail[j]).0 by {
            assert(es[i + 1].0 != es[j + 1].0);
        }
        assert forall|i: int| 0 <= i < tail.len() implies str_fits((#[trigger] tail[i]).0)
            && str_fits(tail[i].1) by {
            assert(es[i + 1] == tail[i]);
        }
        lemma_dec_enc_pairs(tail, rest);
        assert forall|i: int| 0 <= i < tail.len() implies (#[trigger] tail[i]).0 != k by {
            assert(es[0].0 != es[i + 1].0);
        }
        assert(seq![(k, v)] + tail =~= es);
    }
}

pub proof fn lemma_dec_enc_node(n: NodeView, rest: Seq<u8>)
    requires
        node_fits(n),
        entry_keys_unique(n.entries),
    ensures
        dec_node(enc_node(n) + rest) == Some((n, rest)),
{
    let status_byte = seq![(if n.status { 1u8 } else { 0u8 })];
    let after_name = enc_str(n.id) + (enc_u64(n.entries.len() as u64) + (enc_pairs(n.entries) + (
    status_byte + rest)));
    assert(enc_node(n) + rest =~= enc_str(n.name) + after_name);
    lemma_dec_enc_str(n.name, after_name);
    let after_id = enc_u64(n.entries.len() as u64) + (enc_pairs(n.entries) + (status_byte + rest));
    lemma_dec_enc_str(n.id, after_id);
    let after_cnt = enc_pairs(n.entries) + (status_byte + rest);
    lemma_dec_enc_u64(n.entries.len() as u64, after_cnt);
    lemma_dec_enc_pairs(n.entries, status_byte + rest);
    assert((n.entries.len() as u64) as nat == n.entries.len());
    assert((status_byte + rest)[0] == (if n.status { 1u8 } else { 0u8 }));
    assert((status_byte + rest).skip(1) =~= rest);
    assert(dec_node(enc_node(n) + rest) matches Some((m, r)) && r == rest && m =~= n);
}

pub proof fn lemma_dec_enc_nodes(ns: Seq<NodeView>, rest: Seq<u8>)
    requires
        nodes_fit(ns),
        wf_nodes(ns),
    ensures
        dec_nodes(ns.len(), enc_nodes(ns) + rest) == Some((ns, rest)),
    decreases ns.len(),
{
    if ns.len() == 0 {
        assert(enc_nodes(ns) + rest =~= rest);
        assert(ns =~= Seq::<NodeView>::empty());
    } else {
        let tail = ns.skip(1);
        assert(enc_nodes(ns) + rest =~= enc_node(ns[0]) + (enc_nodes(tail) + rest));
        lemma_dec_enc_node(ns[0], enc_nodes(tail) + rest);
        assert forall|i: int| 0 <= i < tail.len() implies node_fits(#[trigger] tail[i])
            && entry_keys_unique(tail[i].entries) by {
            assert(ns[i + 1] == tail[i]);
        }
        lemma_dec_enc_nodes(tail, rest);
        assert(seq![ns[0]] + tail =~= ns);
    }
}

/// Law: decoding inverts encoding. Every well-formed snapshot value decodes
/// back from its canonical encoding, exactly.
pub proof fn lemma_dec_enc_state(s: StateView)
    requires
        state_fits(s),
        wf_state(s),
    ensures
        dec_state(enc_state(s)) == Some(s),
{
    let rest1 = enc_nodes(s.vaults) + (enc_u64(s.replicas.len() as u64) + (enc_nodes(s.replicas)
        + Seq::<u8>::empty()));
    assert(enc_state(s) =~= enc_u64(s.vaults.len() as u64) + rest1);
    lemma_dec_enc_u64(s.vaults.len() as u64, rest1);
    lemma_dec_enc_nodes(
        s.vaults,
        enc_u64(s.replicas.len() as u64) + (enc_nodes(s.replicas) + Seq::<u8>::empty()),
    );
    lemma_dec_enc_u64(s.replicas.len() as u64, enc_nodes(s.replicas) + Seq::<u8>::empty());
    lemma_dec_enc_nodes(s.replicas, Seq::<u8>::empty());
    assert((s.vaults.len() as u64) as nat == s.vaults.len());
    assert((s.replicas.len() as u64) as nat == s.replicas.len());
    assert(dec_state(enc_state(s)) matches Some(t) && t =~= s);
}

// ---------------------------------------------------------------------------
// Every decoded vault is well-formed.
// ---------------------------------------------------------------------------

pub proof fn lemma_dec_pairs_unique(count: nat, b: Seq<u8>)
    ensures
        dec_pairs(count, b) matches Some((es, r)) ==> entry_keys_unique(es) && es.len() == count,
    decreases count,
{
    if count > 0 {
        if let Some((k, r1)) = dec_str(b) {
            if let Some((v, r2)) = dec_str(r1) {
                lemma_dec_pairs_unique((count - 1) as nat, r2);
                if let Some((es, r3)) = dec_pairs((count - 1) as nat, r2) {
                    if !(exists|i: int| 0 <= i < es.len() && (#[trigger] es[i]).0 == k) {
                        let whole = seq![(k, v)] + es;
                        assert forall|i: int, j: int| 0 <= i < j < whole.len() implies (
                        #[trigger] whole[i]).0 != (#[trigger] whole[j]).0 by {
                            if i == 0 {
                                assert(whole[j] == es[j - 1]);
                            } else {
                                assert(whole[i] == es[i - 1] && whole[j] == es[j - 1]);
                            }
                        }
                    }
                }
            }
        }
    }
}

pub proof fn lemma_dec_nodes_wf(count: nat, b: Seq<u8>)
    ensures
        dec_nodes(count, b) matches Some((ns, r)) ==> wf_nodes(ns) && ns.len() == count,
    decreases count,
{
    if count > 0 {
        if let Some((n, r1)) = dec_node(b) {
            if let Some((name, s1)) = dec_str(b) {
                if let Some((id, s2)) = dec_str(s1) {
                    if let Some((cnt, s3)) = dec_u64(s2) {
                        lemma_dec_pairs_unique(cnt as nat, s3);
                    }
                }
            }
            lemma_dec_nodes_wf((count - 1) as nat, r1);
            if let Some((ns, r2)) = dec_nodes((count - 1) as nat, r1) {
                let whole = seq![n] + ns;
                assert forall|i: int| 0 <= i < whole.len() implies entry_keys_unique(
                    (#[trigger] whole[i]).entries,
                ) by {
                    if i > 0 {
                        assert(whole[i] == ns[i - 1]);
                    }
                }
            }
        }
    }
}

// ---------------------------------------------------------------------------
// The executable encoder.
// ---------------------------------------------------------------------------

fn push_u64(out: &mut Vec<u8>, n: u64)
    ensures
        final(out)@ == old(out)@ + enc_u64(n),
{
    let mut b = u64_to_le_bytes(n);
    out.append(&mut b);
}

fn push_char(out: &mut Vec<u8>, c: char)
    ensures
        final(out)@ == old(out)@ + enc_char(c),
{
    let mut b = u32_to_le_bytes(c as u32);
    out.append(&mut b);
}

/// Appending one more character extends the character encoding at its end.
proof fn lemma_enc_chars_snoc(s: Seq<char>, c: char)
    ensures
        enc_chars(s.push(c)) == enc_chars(s) + enc_char(c),
    decreases s.len(),
{
    if s.len() == 0 {
        assert(s.push(c)[0] == c);
        assert(s.push(c).skip(1) =~= Seq::<char>::empty());
        assert(enc_chars(Seq::<char>::empty()) == Seq::<u8>::empty());
        assert(enc_chars(s.push(c)) =~= enc_chars(s) + enc_char(c));
    } else {
        let sp = s.push(c);
        assert(sp[0] == s[0]);
        assert(sp.skip(1) =~= s.skip(1).push(c));
        lemma_enc_chars_snoc(s.skip(1), c);
        assert(enc_chars(sp) == enc_char(s[0]) + (enc_chars(s.skip(1)) + enc_char(c)));
        assert(enc_char(s[0]) + (enc_chars(s.skip(1)) + enc_char(c)) =~= (enc_char(s[0])
            + enc_chars(s.skip(1))) + enc_char(c));
        assert(enc_chars(s) == enc_char(s[0]) + enc_chars(s.skip(1)));
    }
}

fn push_str(out: &mut Vec<u8>, s: &String)
    ensures
        final(out)@ == old(out)@ + enc_str(s@),
        str_fits(s@),
{
    let len = s.as_str().unicode_len();
    push_u64(out, len as u64);
    let mut i: usize = 0;
    while i < len
        invariant
            len == s@.len(),
            i <= len,
            out@ == old(out)@ + enc_u64(len as u64) + enc_chars(s@.take(i as int)),
        decreases len - i,
    {
        let c = s.as_str().get_char(i);
        push_char(out, c);
        proof {
            assert(s@.take(i as int).push(s@[i as int]) =~= s@.take(i as int + 1));
            lemma_enc_chars_snoc(s@.take(i as int), s@[i as int]);
            assert(out@ =~= old(out)@ + enc_u64(len as u64) + enc_chars(s@.take(i as int + 1)));
        }
        i = i + 1;
    }
    proof {
        assert(s@.take(len as int) =~= s@);
        assert(old(out)@ + enc_u64(len as u64) + enc_chars(s@) =~= old(out)@ + enc_str(s@));
    }
}

/// Appending one more pair extends the entry encoding at its end.
proof fn lemma_enc_pairs_snoc(es: Seq<(Seq<char>, Seq<char>)>, p: (Seq<char>, Seq<char>))
    ensures
        enc_pairs(es.push(p)) == enc_pairs(es) + enc_str(p.0) + enc_str(p.1),
    decreases es.len(),
{
    if es.len() == 0 {
        assert(es.push(p)[0] == p);
        assert(es.push(p).skip(1) =~= Seq::<(Seq<char>, Seq<char>)>::empty());
        assert(enc_pairs(Seq::<(Seq<char>, Seq<char>)>::empty()) == Seq::<u8>::empty());
        assert(enc_pairs(es.push(p)) =~= enc_pairs(es) + enc_str(p.0) + enc_str(p.1));
    } else {
        let ep = es.push(p);
        assert(ep[0] == es[0]);
        assert(ep.skip(1) =~= es.skip(1).push(p));
        lemma_enc_pairs_snoc(es.skip(1), p);
        assert(enc_pairs(ep) == enc_str(es[0].0) + enc_str(es[0].1) + ((enc_pairs(es.skip(1))
            + enc_str(p.0)) + enc_str(p.1)));
        assert(enc_str(es[0].0) + enc_str(es[0].1) + ((enc_pairs(es.skip(1)) + enc_str(p.0))
            + enc_str(p.1)) =~= ((enc_str(es[0].0) + enc_str(es[0].1) + enc_pairs(es.skip(1)))
            + enc_str(p.0)) + enc_str(p.1));
        assert(enc_pairs(es) == enc_str(es[0].0) + enc_str(es[0].1) + enc_pairs(es.skip(1)));
    }
}

fn push_node(out: &mut Vec<u8>, n: &Node)
    ensures
        final(out)@ == old(out)@ + enc_node(n@),
        node_fits(n@),
{
    push_str(out, n.name());
    push_str(out, n.id());
    let entries = n.entries();
    push_u64(out, entries.len() as u64);
    let ghost mid = out@;
    let mut i: usize = 0;
    while i < entries.len()
        invariant
            view_entries(entries@) == n@.entries,
            i <= entries@.len(),
            out@ == mid + enc_pairs(n@.entries.take(i as int)),
            forall|j: int|
                0 <= j < i ==> str_fits((#[trigger] n@.entries[j]).0) && str_fits(n@.entries[j].1),
        decreases entries@.len() - i,
    {
        let pair = &entries[i];
        push_str(out, &pair.0);
        push_str(out, &pair.1);
        proof {
            assert(n@.entries[i as int] == (pair.0@, pair.1@));
            assert(n@.entries.take(i as int).push(n@.entries[i as int]) =~= n@.entries.take(
                i as int + 1,
            ));
            lemma_enc_pairs_snoc(n@.entries.take(i as int), n@.entries[i as int]);
            assert(out@ =~= mid + enc_pairs(n@.entries.take(i as int + 1)));
        }
        i = i + 1;
    }
    proof {
        assert(n@.entries.take(n@.entries.len() as int) =~= n@.entries);
    }
    if n.status() {
        out.push(1u8);
    } else {
        out.push(0u8);
    }
    proof {
        assert(final(out)@ =~= old(out)@ + enc_node(n@));
    }
}

/// Appending one more vault extends the vault-sequence encoding at its end.
proof fn lemma_enc_nodes_snoc(ns: Seq<NodeView>, n: NodeView)
    ensures
        enc_nodes(ns.push(n)) == enc_nodes(ns) + enc_node(n),
    decreases ns.len(),
{
    if ns.len() == 0 {
        assert(ns.push(n)[0] == n);
        assert(ns.push(n).skip(1) =~= Seq::<NodeView>::empty());
        assert(enc_nodes(Seq::<NodeView>::empty()) == Seq::<u8>::empty());
        assert(enc_nodes(ns.push(n)) =~= enc_nodes(ns) + enc_node(n));
    } else {
        let np = ns.push(n);
        assert(np[0] == ns[0]);
        assert(np.skip(1) =~= ns.skip(1).push(n));
        lemma_enc_nodes_snoc(ns.skip(1), n);
        assert(enc_nodes(np) == enc_node(ns[0]) + (enc_nodes(ns.skip(1)) + enc_node(n)));
        assert(enc_node(ns[0]) + (enc_nodes(ns.skip(1)) + enc_node(n)) =~= (enc_node(ns[0])
            + enc_nodes(ns.skip(1))) + enc_node(n));
        assert(enc_nodes(ns) == enc_node(ns[0]) + enc_nodes(ns.skip(1)));
    }
}

fn push_nodes(out: &mut Vec<u8>, nodes: &Vec<Node>)
    ensures
        final(out)@ == old(out)@ + enc_u64(nodes@.len() as u64) + enc_nodes(view_nodes(nodes@)),
        nodes_fit(view_nodes(nodes@)),
{
    push_u64(out, nodes.len() as u64);
    let ghost mid = out@;
    let mut i: usize = 0;
    while i < nodes.len()
        invariant
            i <= nodes@.len(),
            out@ == mid + enc_nodes(view_nodes(nodes@).take(i as int)),
            forall|j: int| 0 <= j < i ==> node_fits(#[trigger] view_nodes(nodes@)[j]),
        decreases nodes@.len() - i,
    {
        push_node(out, &nodes[i]);
        proof {
            assert(view_nodes(nodes@)[i as int] == nodes@[i as int]@);
            assert(view_nodes(nodes@).take(i as int).push(view_nodes(nodes@)[i as int])
                =~= view_nodes(nodes@).take(i as int + 1));
            lemma_enc_nodes_snoc(view_nodes(nodes@).take(i as int), view_nodes(nodes@)[i as int]);
            assert(out@ =~= mid + enc_nodes(view_nodes(nodes@).take(i as int + 1)));
        }
        i = i + 1;
    }
    proof {
        assert(view_nodes(nodes@).take(nodes@.len() as int) =~= view_nodes(nodes@));
    }
}

/// Encode a store snapshot into its canonical bytes.
pub fn encode_state(state: &AppState) -> (r: Vec<u8>)
    ensures
        r@ == enc_state(state@),
        state_fits(state@),
{
    let mut out: Vec<u8> = Vec::new();
    push_nodes(&mut out, &state.vaults);
    push_nodes(&mut out, &state.replicas);
    proof {
        state.lemma_parts();
        assert(out@ =~= enc_state(state@));
    }
    out
}

// ---------------------------------------------------------------------------
// The executable decoder. Each reader starts at a byte offset and agrees
// exactly with the mathematical decoder on the bytes from that offset.
// ---------------------------------------------------------------------------

/// Relies on std's `char::from_u32`: yields the character with the given
/// scalar value exactly when the value is a Unicode scalar value.
pub assume_specification[ char::from_u32 ](u: u32) -> (r: Option<char>)
    ensures
        r == (if valid_scalar(u) {
            Some(u as char)
        } else {
            None::<char>
        }),
;

/// Relies on std's `String::insert`: inserts a character at the front.
#[verifier::external_body]
fn prepend_char(s: &mut String, c: char)
    ensures
        final(s)@ == seq![c] + old(s)@,
{
    s.insert(0, c);
}

fn rd_u64(b: &[u8], pos: usize) -> (r: Option<(u64, usize)>)
    requires
        pos <= b@.len(),
    ensures
        match r {
            Some((n, p2)) => pos <= p2 <= b@.len() && dec_u64(b@.skip(pos as int)) == Some(
                (n, b@.skip(p2 as int)),
            ),
            None => dec_u64(b@.skip(pos as int)) is None,
        },
{
    if b.len() - pos >= 8 {
        let s = slice_subrange(b, pos, pos + 8);
        let n = u64_from_le_bytes(s);
        proof {
            assert(s@ =~= b@.skip(pos as int).take(8));
            assert(b@.skip(pos as int).skip(8) =~= b@.skip(pos as int + 8));
        }
        Some((n, pos + 8))
    } else {
        None
    }
}

fn rd_char(b: &[u8], pos: usize) -> (r: Option<(char, usize)>)
    requires
        pos <= b@.len(),
    ensures
        match r {
            Some((c, p2)) => pos <= p2 <= b@.len() && dec_char(b@.skip(pos as int)) == Some(
                (c, b@.skip(p2 as int)),
            ),
            None => dec_char(b@.skip(pos as int)) is None,
        },
{
    if b.len() - pos >= 4 {
        let s = slice_subrange(b, pos, pos + 4);
        let u = u32_from_le_bytes(s);
        proof {
            assert(s@ =~= b@.skip(pos as int).take(4));
            assert(b@.skip(pos as int).skip(4) =~= b@.skip(pos as int + 4));
        }
        match char::from_u32(u) {
            Some(c) => Some((c, pos + 4)),
            None => None,
        }
    } else {
        None
    }
}

fn rd_chars(count: u64, b: &[u8], pos: usize) -> (r: Option<(String, usize)>)
    requires
        pos <= b@.len(),
    ensures
        match r {
            Some((s, p2)) => pos <= p2 <= b@.len() && dec_chars(count as nat, b@.skip(pos as int))
                == Some((s@, b@.skip(p2 as int))),
            None => dec_chars(count as nat, b@.skip(pos as int)) is None,
        },
    decreases count,
{
    if count == 0 {
        Some((String::new(), pos))
    } else {
        match rd_char(b, pos) {
            Some((c, p1)) => match rd_chars(count - 1, b, p1) {
                Some((mut s, p2)) => {
                    prepend_char(&mut s, c);
                    Some((s, p2))
                },
                None => None,
            },
            None => None,
        }
    }
}

fn rd_str(b: &[u8], pos: usize) -> (r: Option<(String, usize)>)
    requires
        pos <= b@.len(),
    ensures
        match r {
            Some((s, p2)) => pos <= p2 <= b@.len() && dec_str(b@.skip(pos as int)) == Some(
                (s@, b@.skip(p2 as int)),
            ),
            None => dec_str(b@.skip(pos as int)) is None,
        },
{
    match rd_u64(b, pos) {
        Some((n, p1)) => rd_chars(n, b, p1),
        None => None,
    }
}

/// Whether some already-decoded entry holds `key`.
fn has_key(entries: &Vec<(String, String)>, key: &String) -> (r: bool)
    ensures
        r == exists|i: int|
            0 <= i < entries@.len() && (#[trigger] view_entries(entries@)[i]).0 == key@,
{
    let mut i: usize = 0;
    while i < entries.len()
        invariant
            i <= entries@.len(),
            forall|j: int| 0 <= j < i ==> (#[trigger] view_entries(entries@)[j]).0 != key@,
        decreases entries@.len() - i,
    {
        if entries[i].0 == *key {
            proof {
                assert(view_entries(entries@)[i as int].0 == key@);
            }
            return true;
        }
        i = i + 1;
    }
    false
}

fn rd_pairs(count: u64, b: &[u8], pos: usize) -> (r: Option<(Vec<(String, String)>, usize)>)
    requires
        pos <= b@.len(),
    ensures
        match r {
            Some((es, p2)) => pos <= p2 <= b@.len() && dec_pairs(count as nat, b@.skip(pos as int))
                == Some((view_entries(es@), b@.skip(p2 as int))),
            None => dec_pairs(count as nat, b@.skip(pos as int)) is None,
        },
    decreases count,
{
    if count == 0 {
        let es: Vec<(String, String)> = Vec::new();
        proof {
            assert(view_entries(es@) =~= Seq::<(Seq<char>, Seq<char>)>::empty());
        }
        Some((es, pos))
    } else {
        match rd_str(b, pos) {
            Some((k, p1)) => match rd_str(b, p1) {
                Some((v, p2)) => match rd_pairs(count - 1, b, p2) {
                    Some((mut es, p3)) => {
                        if has_key(&es, &k) {
                            None
                        } else {
                            let ghost tail = view_entries(es@);
                            let ghost kv = k@;
                            let ghost vv = v@;
                            es.insert(0, (k, v));
                            proof {
                                assert(view_entries(es@) =~= seq![(kv, vv)] + tail);
                            }
                            Some((es, p3))
                        }
                    },
                    None => None,
                },
                None => None,
            },
            None => None,
        }
    }
}

fn rd_bool(b: &[u8], pos: usize) -> (r: Option<(bool, usize)>)
    requires
        pos <= b@.len(),
    ensures
        match r {
            Some((v, p2)) => pos <= p2 <= b@.len() && dec_bool(b@.skip(pos as int)) == Some(
                (v, b@.skip(p2 as int)),
            ),
            None => dec_bool(b@.skip(pos as int)) is None,
        },
{
    if b.len() - pos >= 1 {
        let byte = b[pos];
        proof {
            assert(b@.skip(pos as int)[0] == b@[pos as int]);
            assert(b@.skip(pos as int).skip(1) =~= b@.skip(pos as int + 1));
        }
        if byte == 1u8 {
            Some((true, pos + 1))
        } else if byte == 0u8 {
            Some((false, pos + 1))
        } else {
            None
        }
    } else {
        None
    }
}

fn rd_node(b: &[u8], pos: usize) -> (r: Option<(Node, usize)>)
    requires
        pos <= b@.len(),
    ensures
        match r {
            Some((n, p2)) => pos <= p2 <= b@.len() && dec_node(b@.skip(pos as int)) == Some(
                (n@, b@.skip(p2 as int)),
            ) && n.wf(),
            None => dec_node(b@.skip(pos as int)) is None,
        },
{
    match rd_str(b, pos) {
        Some((name, p1)) => match rd_str(b, p1) {
            Some((id, p2)) => match rd_u64(b, p2) {
                Some((cnt, p3)) => match rd_pairs(cnt, b, p3) {
                    Some((es, p4)) => match rd_bool(b, p4) {
                        Some((st, p5)) => {
                            proof {
                                lemma_dec_pairs_unique(cnt as nat, b@.skip(p3 as int));
                            }
                            let n = Node::from_parts(name, id, es, st);
                            proof {
                                assert(dec_node(b@.skip(pos as int)) matches Some((m, r)) && m
                                    =~= n@ && r == b@.skip(p5 as int));
                            }
                            Some((n, p5))
                        },
                        None => None,
                    },
                    None => None,
                },
                None => None,
            },
            None => None,
        },
        None => None,
    }
}

fn rd_nodes(count: u64, b: &[u8], pos: usize) -> (r: Option<(Vec<Node>, usize)>)
    requires
        pos <= b@.len(),
    ensures
        match r {
            Some((ns, p2)) => pos <= p2 <= b@.len() && dec_nodes(count as nat, b@.skip(pos as int))
                == Some((view_nodes(ns@), b@.skip(p2 as int))),
            None => dec_nodes(count as nat, b@.skip(pos as int)) is None,
        },
    decreases count,
{
    if count == 0 {
        let ns: Vec<Node> = Vec::new();
        proof {
            assert(view_nodes(ns@) =~= Seq::<NodeView>::empty());
        }
        Some((ns, pos))
    } else {
        match rd_node(b, pos) {
            Some((n, p1)) => match rd_nodes(count - 1, b, p1) {
                Some((mut ns, p2)) => {
                    let ghost tail = view_nodes(ns@);
                    let ghost nv = n@;
                    ns.insert(0, n);
                    proof {
                        assert(view_nodes(ns@) =~= seq![nv] + tail);
                    }
                    Some((ns, p2))
                },
                None => None,
            },
            None => None,
        }
    }
}

/// Decode a canonical snapshot; yields nothing on any malformed input. Every
/// vault of a decoded store is well-formed.
pub fn decode_state(b: &[u8]) -> (r: Option<AppState>)
    ensures
        match r {
            Some(st) => dec_state(b@) == Some(st@) && st.wf(),
            None => dec_state(b@) is None,
        },
{
    proof {
        assert(b@.skip(0) =~= b@);
    }
    match rd_u64(b, 0) {
        Some((nv, p1)) => match rd_nodes(nv, b, p1) {
            Some((vaults, p2)) => match rd_u64(b, p2) {
                Some((nr, p3)) => match rd_nodes(nr, b, p3) {
                    Some((replicas, p4)) => {
                        if b.len() - p4 == 0 {
                            let ghost vs = view_nodes(vaults@);
                            let ghost rs = view_nodes(replicas@);
                            proof {
                                lemma_dec_nodes_wf(nv as nat, b@.skip(p1 as int));
                                lemma_dec_nodes_wf(nr as nat, b@.skip(p3 as int));
                                assert(b@.skip(p4 as int).len() == 0);
                                assert(dec_state(b@) == Some(StateView { vaults: vs, replicas: rs }));
                            }
                            let st = AppState::from_parts(vaults, replicas);
                            proof {
                                assert(st@ =~= (StateView { vaults: vs, replicas: rs }));
                            }
                            Some(st)
                        } else {
                            None
                        }
                    },
                    None => None,
                },
                None => None,
            },
            None => None,
        },
        None => None,
    }
}

} // verus!
