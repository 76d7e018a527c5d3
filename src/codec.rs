//! The baseline file: a text encoding of a tree, one record per node.
//!
//! A record is `F` (file) or `D` (directory), then the size, the timestamp
//! and the path length as 20 decimal digits each, the path, the length of
//! the MIME type as 20 digits, the MIME type, and a newline.
use vstd::prelude::*;
use crate::item::{ItemTree, LocalItem, MetaView, paths_distinct};

verus! {

pub const WIDTH: usize = 20;

pub open spec fn pow10(w: nat) -> nat
    decreases w,
{
    if w == 0 {
        1
    } else {
        10 * pow10((w - 1) as nat)
    }
}

/// `n` in `w` decimal digits, the last `w` digits where it has more.
pub open spec fn dec_w(n: nat, w: nat) -> Seq<u8>
    decreases w,
{
    if w == 0 {
        Seq::empty()
    } else {
        dec_w(n / 10, (w - 1) as nat).push((48 + n % 10) as u8)
    }
}

pub open spec fn is_digits(s: Seq<u8>) -> bool {
    forall|i: int| 0 <= i < s.len() ==> 48 <= #[trigger] s[i] <= 57
}

/// The number that the decimal digits `s` write.
pub open spec fn digits_value(s: Seq<u8>) -> nat
    decreases s.len(),
{
    if s.len() == 0 {
        0
    } else {
        digits_value(s.drop_last()) * 10 + (s.last() - 48) as nat
    }
}

pub open spec fn enc_num(n: nat) -> Seq<u8> {
    dec_w(n, WIDTH as nat)
}

pub open spec fn enc_node(m: MetaView) -> Seq<u8> {
    seq![if m.is_file { 70u8 } else { 68u8 }] + enc_num(m.size as nat) + enc_num(m.timestamp as nat) + enc_num(
        m.path.len(),
    ) + m.path + enc_num(m.mime.len()) + m.mime + seq![10u8]
}

/// The encoding of a tree: its records in order.
pub open spec fn enc_tree(s: Seq<MetaView>) -> Seq<u8>
    decreases s.len(),
{
    if s.len() == 0 {
        Seq::empty()
    } else {
        enc_tree(s.drop_last()) + enc_node(s.last())
    }
}

/// The number written in the 20 digits at `pos`, if they are digits and it
/// fits in 64 bits.
pub open spec fn parse_num(b: Seq<u8>, pos: int) -> Option<u64> {
    if 0 <= pos && pos + WIDTH <= b.len() && is_digits(b.subrange(pos, pos + WIDTH)) && digits_value(
        b.subrange(pos, pos + WIDTH),
    ) <= u64::MAX {
        Some(digits_value(b.subrange(pos, pos + WIDTH)) as u64)
    } else {
        None
    }
}

/// The record at `pos` and the position after it.
pub open spec fn parse_node(b: Seq<u8>, pos: int) -> Option<(MetaView, int)> {
    if 0 <= pos < b.len() && (b[pos] == 70u8 || b[pos] == 68u8) {
        match (parse_num(b, pos + 1), parse_num(b, pos + 21), parse_num(b, pos + 41)) {
            (Some(size), Some(timestamp), Some(pl)) => {
                let ps = pos + 61;
                let pe = ps + pl;
                if pe <= b.len() {
                    match parse_num(b, pe) {
                        Some(ml) => {
                            let me = pe + 20 + ml;
                            if me < b.len() && b[me] == 10u8 {
                                Some(
                                    (
                                        MetaView {
                                            path: b.subrange(ps, pe),
                                            is_file: b[pos] == 70u8,
                                            size,
                                            timestamp,
                                            mime: b.subrange(pe + 20, me),
                                        },
                                        me + 1,
                                    ),
                                )
                            } else {
                                None
                            }
                        },
                        None => None,
                    }
                } else {
                    None
                }
            },
            _ => None,
        }
    } else {
        None
    }
}

/// The records from `pos` to the end.
pub open spec fn parse_all(b: Seq<u8>, pos: int) -> Option<Seq<MetaView>>
    decreases b.len() - pos,
{
    if pos < 0 || pos > b.len() {
        None
    } else if pos == b.len() {
        Some(Seq::empty())
    } else {
        match parse_node(b, pos) {
            Some((m, next)) => if next > pos {
                match parse_all(b, next) {
                    Some(rest) => Some(seq![m] + rest),
                    None => None,
                }
            } else {
                None
            },
            None => None,
        }
    }
}

/// The tree that `b` encodes: every byte belongs to a record, and no two
/// records share a path.
pub open spec fn spec_decode(b: Seq<u8>) -> Option<Seq<MetaView>> {
    match parse_all(b, 0) {
        Some(s) => if paths_distinct(s) {
            Some(s)
        } else {
            None
        },
        None => None,
    }
}

proof fn lemma_dec_w(n: nat, w: nat)
    ensures
        dec_w(n, w).len() == w,
        is_digits(dec_w(n, w)),
        n < pow10(w) ==> digits_value(dec_w(n, w)) == n,
    decreases w,
{
    if w > 0 {
        lemma_dec_w(n / 10, (w - 1) as nat);
        let d = dec_w(n, w);
        assert(d.drop_last() =~= dec_w(n / 10, (w - 1) as nat));
        assert forall|i: int| 0 <= i < d.len() implies 48 <= #[trigger] d[i] <= 57 by {
            if i < d.len() - 1 {
                assert(d[i] == d.drop_last()[i]);
            }
        }
        if n < pow10(w) {
            assert(n / 10 < pow10((w - 1) as nat)) by (nonlinear_arith)
                requires
                    n < pow10(w),
                    pow10(w) == 10 * pow10((w - 1) as nat),
            ;
            assert(digits_value(d) == (n / 10) * 10 + n % 10);
            assert((n / 10) * 10 + n % 10 == n) by (nonlinear_arith);
        }
    }
}

proof fn lemma_u64_fits()
    ensures
        u64::MAX < pow10(WIDTH as nat),
{
    reveal_with_fuel(pow10, 21);
}

proof fn lemma_enc_num(n: u64)
    ensures
        enc_num(n as nat).len() == WIDTH,
        is_digits(enc_num(n as nat)),
        digits_value(enc_num(n as nat)) == n,
{
    lemma_u64_fits();
    lemma_dec_w(n as nat, WIDTH as nat);
}

/// Reading back the number written at `pos`.
proof fn lemma_parse_num(b: Seq<u8>, pos: int, n: u64)
    requires
        0 <= pos,
        pos + WIDTH <= b.len(),
        b.subrange(pos, pos + WIDTH) == enc_num(n as nat),
    ensures
        parse_num(b, pos) == Some(n),
{
    lemma_enc_num(n);
}

proof fn lemma_parse_node(b: Seq<u8>, pos: int, m: MetaView)
    requires
        0 <= pos,
        pos + enc_node(m).len() <= b.len(),
        b.subrange(pos, pos + enc_node(m).len()) == enc_node(m),
        m.path.len() <= u64::MAX,
        m.mime.len() <= u64::MAX,
    ensures
        parse_node(b, pos) == Some((m, pos + enc_node(m).len())),
{
    let e = enc_node(m);
    let pl: int = m.path.len() as int;
    let ml: int = m.mime.len() as int;
    lemma_enc_num(m.size);
    lemma_enc_num(m.timestamp);
    lemma_enc_num(pl as u64);
    assert(enc_num(pl as u64 as nat) == enc_num(m.path.len()));
    lemma_enc_num(ml as u64);
    assert(enc_num(ml as u64 as nat) == enc_num(m.mime.len()));
    assert(e.len() == 82 + pl + ml);
    let sub = b.subrange(pos, pos + e.len());
    assert(b[pos] == e[0]);
    assert(b.subrange(pos + 1, pos + 21) =~= e.subrange(1, 21));
    assert(e.subrange(1, 21) =~= enc_num(m.size as nat));
    lemma_parse_num(b, pos + 1, m.size);
    assert(b.subrange(pos + 21, pos + 41) =~= e.subrange(21, 41));
    assert(e.subrange(21, 41) =~= enc_num(m.timestamp as nat));
    lemma_parse_num(b, pos + 21, m.timestamp);
    assert(b.subrange(pos + 41, pos + 61) =~= e.subrange(41, 61));
    assert(e.subrange(41, 61) =~= enc_num(m.path.len()));
    lemma_parse_num(b, pos + 41, pl as u64);
    assert(b.subrange(pos + 61, pos + 61 + pl) =~= e.subrange(61, 61 + pl as int));
    assert(e.subrange(61, 61 + pl as int) =~= m.path);
    let pe = pos + 61 + pl;
    assert(b.subrange(pe, pe + 20) =~= e.subrange(61 + pl as int, 81 + pl as int));
    assert(e.subrange(61 + pl as int, 81 + pl as int) =~= enc_num(m.mime.len()));
    lemma_parse_num(b, pe, ml as u64);
    assert(b.subrange(pe + 20, pe + 20 + ml) =~= e.subrange(81 + pl as int, 81 + pl + ml));
    assert(e.subrange(81 + pl as int, 81 + pl + ml) =~= m.mime);
    assert(b[pe + 20 + ml] == e[81 + pl + ml]);
}

proof fn lemma_enc_tree_front(s: Seq<MetaView>)
    requires
        s.len() > 0,
    ensures
        enc_tree(s) == enc_node(s[0]) + enc_tree(s.drop_first()),
    decreases s.len(),
{
    if s.len() == 1 {
        assert(s.drop_last() =~= Seq::<MetaView>::empty());
        assert(s.drop_first() =~= Seq::<MetaView>::empty());
        assert(enc_tree(s.drop_first()) == Seq::<u8>::empty());
        assert(enc_node(s[0]) + Seq::<u8>::empty() =~= enc_node(s[0]));
        assert(Seq::<u8>::empty() + enc_node(s[0]) =~= enc_node(s[0]));
    } else {
        lemma_enc_tree_front(s.drop_last());
        assert(s.drop_last().drop_first() =~= s.drop_first().drop_last());
        assert(s.drop_first().last() == s.last());
        assert(s.drop_last()[0] == s[0]);
        assert(enc_tree(s) =~= enc_node(s[0]) + enc_tree(s.drop_first()));
    }
}

/// Nodes whose lengths the record format can hold.
pub open spec fn encodable(s: Seq<MetaView>) -> bool {
    forall|i: int| 0 <= i < s.len() ==> #[trigger] s[i].path.len() <= u64::MAX && s[i].mime.len() <= u64::MAX
}

proof fn lemma_parse_all(b: Seq<u8>, pos: int, s: Seq<MetaView>)
    requires
        0 <= pos,
        encodable(s),
        b.len() == pos + enc_tree(s).len(),
        b.subrange(pos, b.len() as int) == enc_tree(s),
    ensures
        parse_all(b, pos) == Some(s),
    decreases s.len(),
{
    if s.len() == 0 {
        assert(pos == b.len());
    } else {
        lemma_enc_tree_front(s);
        let e = enc_node(s[0]);
        assert(b.subrange(pos, pos + e.len()) =~= e) by {
            assert(b.subrange(pos, pos + e.len()) =~= b.subrange(pos, b.len() as int).subrange(0, e.len() as int));
        }
        lemma_parse_node(b, pos, s[0]);
        let rest = s.drop_first();
        assert(encodable(rest)) by {
            assert forall|i: int| 0 <= i < rest.len() implies #[trigger] rest[i].path.len() <= u64::MAX && rest[i].mime.len() <= u64::MAX by {
                assert(rest[i] == s[i + 1]);
            }
        }
        assert(b.subrange(pos + e.len(), b.len() as int) =~= enc_tree(rest)) by {
            assert(b.subrange(pos + e.len(), b.len() as int) =~= b.subrange(pos, b.len() as int).subrange(e.len() as int, (b.len() - pos) as int));
        }
        lemma_parse_all(b, pos + e.len(), rest);
        assert(seq![s[0]] + rest =~= s);
    }
}

/// Decoding an encoded tree gives back the same tree: the same paths, kinds,
/// sizes, timestamps and MIME types, in the same order.
pub proof fn lemma_round_trip(s: Seq<MetaView>)
    requires
        paths_distinct(s),
        encodable(s),
    ensures
        spec_decode(enc_tree(s)) == Some(s),
{
    let b = enc_tree(s);
    assert(b.subrange(0, b.len() as int) =~= b);
    lemma_parse_all(b, 0, s);
}

proof fn lemma_pow10_mono(a: nat, b: nat)
    requires
        a <= b,
    ensures
        pow10(a) <= pow10(b),
    decreases b - a,
{
    if a < b {
        lemma_pow10_mono(a, (b - 1) as nat);
    }
}

proof fn lemma_pow10_width()
    ensures
        pow10(WIDTH as nat) == 100000000000000000000nat,
{
    reveal_with_fuel(pow10, 21);
}

fn push_dec(out: &mut Vec<u8>, n: u64, w: usize)
    ensures
        final(out)@ == old(out)@ + dec_w(n as nat, w as nat),
    decreases w,
{
    if w > 0 {
        push_dec(out, n / 10, w - 1);
        let d = (n % 10) as u8;
        out.push(48u8 + d);
        assert(final(out)@ =~= old(out)@ + dec_w(n as nat, w as nat));
    } else {
        assert(final(out)@ =~= old(out)@ + dec_w(n as nat, w as nat));
    }
}

fn push_bytes(out: &mut Vec<u8>, v: &Vec<u8>)
    ensures
        final(out)@ == old(out)@ + v@,
{
    let mut i: usize = 0;
    while i < v.len()
        invariant
            i <= v@.len(),
            out@ == old(out)@ + v@.subrange(0, i as int),
        decreases v@.len() - i,
    {
        out.push(v[i]);
        assert(out@ =~= old(out)@ + v@.subrange(0, i + 1));
        i = i + 1;
    }
    assert(v@.subrange(0, v@.len() as int) =~= v@);
}

/// Encodes a tree, one record per node, in the tree's order.
pub fn encode(tree: &ItemTree) -> (r: Vec<u8>)
    ensures
        r@ == enc_tree(tree@),
{
    let mut out: Vec<u8> = Vec::new();
    let mut i: usize = 0;
    while i < tree.items.len()
        invariant
            i <= tree@.len(),
            out@ == enc_tree(tree@.subrange(0, i as int)),
        decreases tree@.len() - i,
    {
        let m = &tree.items[i];
        let ghost before = out@;
        out.push(if m.is_regular_file { 70u8 } else { 68u8 });
        push_dec(&mut out, m.size, WIDTH);
        push_dec(&mut out, m.timestamp, WIDTH);
        push_dec(&mut out, m.path.len() as u64, WIDTH);
        push_bytes(&mut out, &m.path);
        push_dec(&mut out, m.mime_type.len() as u64, WIDTH);
        push_bytes(&mut out, &m.mime_type);
        out.push(10u8);
        proof {
            let sub = tree@.subrange(0, i as int + 1);
            assert(sub.drop_last() =~= tree@.subrange(0, i as int));
            assert(sub.last() == tree@[i as int]);
            assert(out@ =~= before + enc_node(m@));
        }
        i = i + 1;
    }
    assert(tree@.subrange(0, tree@.len() as int) =~= tree@);
    out
}

fn read_num(b: &Vec<u8>, pos: usize) -> (r: Option<u64>)
    ensures
        r == parse_num(b@, pos as int),
{
    let n = b.len();
    if pos > n || n - pos < WIDTH {
        return None;
    }
    let mut v: u128 = 0;
    let mut k: usize = 0;
    proof {
        lemma_pow10_width();
    }
    while k < WIDTH
        invariant
            n == b@.len(),
            pos + WIDTH <= b@.len(),
            k <= WIDTH,
            is_digits(b@.subrange(pos as int, pos + k)),
            v == digits_value(b@.subrange(pos as int, pos + k)),
            v < pow10(k as nat),
            pow10(WIDTH as nat) == 100000000000000000000nat,
        decreases WIDTH - k,
    {
        let c = b[pos + k];
        if c < 48u8 || c > 57u8 {
            proof {
                let full = b@.subrange(pos as int, pos + WIDTH);
                assert(full[k as int] == c);
            }
            return None;
        }
        proof {
            let sub = b@.subrange(pos as int, pos + k + 1);
            assert(sub.drop_last() =~= b@.subrange(pos as int, pos + k));
            assert(sub.last() == c);
            assert forall|i: int| 0 <= i < sub.len() implies 48 <= #[trigger] sub[i] <= 57 by {
                if i < k {
                    assert(sub[i] == b@.subrange(pos as int, pos + k)[i]);
                }
            }
            lemma_pow10_mono((k + 1) as nat, WIDTH as nat);
            assert(v * 10 + (c - 48) < pow10((k + 1) as nat)) by (nonlinear_arith)
                requires
                    v < pow10(k as nat),
                    c - 48 < 10,
                    pow10((k + 1) as nat) == 10 * pow10(k as nat),
            ;
        }
        v = v * 10 + (c - 48u8) as u128;
        k = k + 1;
    }
    if v > u64::MAX as u128 {
        None
    } else {
        Some(v as u64)
    }
}

fn read_node(b: &Vec<u8>, pos: usize) -> (r: Option<(LocalItem, usize)>)
    ensures
        r is None <==> parse_node(b@, pos as int) is None,
        r matches Some((m, next)) ==> parse_node(b@, pos as int) == Some((m@, next as int)),
{
    let n = b.len();
    if pos >= n || (b[pos] != 70u8 && b[pos] != 68u8) {
        return None;
    }
    if n - pos < 61 {
        return None;
    }
    let size = match read_num(b, pos + 1) {
        Some(x) => x,
        None => {
            return None;
        },
    };
    let timestamp = match read_num(b, pos + 21) {
        Some(x) => x,
        None => {
            return None;
        },
    };
    let pl = match read_num(b, pos + 41) {
        Some(x) => x,
        None => {
            return None;
        },
    };
    let ps = pos + 61;
    if pl > (n - ps) as u64 {
        return None;
    }
    let pe = ps + pl as usize;
    let ml = match read_num(b, pe) {
        Some(x) => x,
        None => {
            return None;
        },
    };
    let ms = pe + 20;
    if ml >= (n - ms) as u64 {
        return None;
    }
    let me = ms + ml as usize;
    if b[me] != 10u8 {
        return None;
    }
    let path = crate::item::copy_range(b, ps, pe);
    let mime_type = crate::item::copy_range(b, ms, me);
    Some((LocalItem { path, is_regular_file: b[pos] == 70u8, size, timestamp, mime_type }, me + 1))
}

/// Decodes a baseline file: `None` unless every byte belongs to a
/// well-formed record and no two records share a path.
pub fn decode(b: &Vec<u8>) -> (r: Option<ItemTree>)
    ensures
        r is None <==> spec_decode(b@) is None,
        r matches Some(t) ==> spec_decode(b@) == Some(t@) && t.wf(),
{
    let mut tree = ItemTree::new();
    let mut pos: usize = 0;
    let n = b.len();
    while pos < n
        invariant
            n == b@.len(),
            pos <= n,
            tree.wf(),
            parse_all(b@, 0) == match parse_all(b@, pos as int) {
                Some(rest) => Some(tree@ + rest),
                None => None,
            },
        decreases n - pos,
    {
        match read_node(b, pos) {
            None => {
                return None;
            },
            Some((m, next)) => {
                if next <= pos || next > n {
                    proof {
                        assert(parse_all(b@, pos as int) is None);
                    }
                    return None;
                }
                let ghost mv = m@;
                let ghost before = tree@;
                match tree.find_from_path(&m.path) {
                    Some(j) => {
                        proof {
                            match parse_all(b@, next as int) {
                                Some(rest) => {
                                    let all = before + (seq![mv] + rest);
                                    assert(all[j as int] == before[j as int]);
                                    assert(all[before.len() as int] == mv);
                                    assert(!paths_distinct(all));
                                },
                                None => {},
                            }
                        }
                        return None;
                    },
                    None => {
                        tree.upsert(m);
                        proof {
                            match parse_all(b@, next as int) {
                                Some(rest) => {
                                    assert(before + (seq![mv] + rest) =~= before.push(mv) + rest);
                                },
                                None => {},
                            }
                        }
                        pos = next;
                    },
                }
            },
        }
    }
    assert(tree@ + Seq::<MetaView>::empty() =~= tree@);
    Some(tree)
}

/// Decoding the encoding of any well-formed tree gives back the same tree.
pub proof fn lemma_round_trip_tree(t: ItemTree)
    requires
        t.wf(),
    ensures
        spec_decode(enc_tree(t@)) == Some(t@),
{
    assert forall|i: int| 0 <= i < t@.len() implies #[trigger] t@[i].path.len() <= u64::MAX && t@[i].mime.len() <= u64::MAX by {
        let m = t.items@[i];
        assert(vstd::std_specs::vec::spec_vec_len(&m.path) == m.path@.len());
        assert(vstd::std_specs::vec::spec_vec_len(&m.mime_type) == m.mime_type@.len());
        assert(usize::MAX <= u64::MAX);
    }
    lemma_round_trip(t@);
}

} // verus!
