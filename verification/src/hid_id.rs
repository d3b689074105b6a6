//! Recognising QMK Raw HID interfaces from their HID report descriptor, and
//! the sysfs path of a hidraw node.
use vstd::prelude::*;
use vstd::std_specs::iter::IteratorSpec;
use crate::text::push_char;

verus! {

/// QMK Raw HID usage page.
pub const QMK_USAGE_PAGE: u32 = 0xFF60;
/// QMK Raw HID usage.
pub const QMK_USAGE: u32 = 0x61;

/// `256^k`.
pub open spec fn pow256(k: nat) -> nat
    decreases k,
{
    if k == 0 {
        1
    } else {
        256 * pow256((k - 1) as nat)
    }
}

/// Little-endian value of a byte sequence.
pub open spec fn le_value(s: Seq<u8>) -> nat
    decreases s.len(),
{
    if s.len() == 0 {
        0
    } else {
        le_value(s.drop_last()) + pow256((s.len() - 1) as nat) * (s.last() as nat)
    }
}

proof fn lemma_le_value_bound(s: Seq<u8>)
    ensures
        le_value(s) < pow256(s.len()),
    decreases s.len(),
{
    if s.len() > 0 {
        lemma_le_value_bound(s.drop_last());
        let k = (s.len() - 1) as nat;
        assert(pow256(s.len()) == 256 * pow256(k));
        assert(le_value(s) <= pow256(k) - 1 + pow256(k) * 255) by (nonlinear_arith)
            requires
                le_value(s) == le_value(s.drop_last()) + pow256(k) * s.last(),
                le_value(s.drop_last()) < pow256(k),
                s.last() <= 255,
        ;
    }
}

/// Read up to the first four bytes of `data` as a little-endian value.
pub fn read_le(data: &[u8]) -> (v: u32)
    ensures
        v == le_value(data@.take(if data@.len() < 4 { data@.len() as int } else { 4 })),
{
    let n: usize = if data.len() < 4 {
        data.len()
    } else {
        4
    };
    let mut v: u32 = 0;
    let mut k: usize = 0;
    proof {
        reveal_with_fuel(pow256, 5);
        assert(data@.take(0) =~= Seq::<u8>::empty());
    }
    while k < n
        invariant
            n <= 4,
            n <= data@.len(),
            n == (if data@.len() < 4 { data@.len() as int } else { 4 }),
            0 <= k <= n,
            v == le_value(data@.take(k as int)),
            v < pow256(k as nat),
            pow256(0) == 1,
            pow256(1) == 256,
            pow256(2) == 65536,
            pow256(3) == 16777216,
            pow256(4) == 4294967296,
        decreases n - k,
    {
        let b = data[k];
        let ghost old_v = v;
        let bb = b as u32;
        let sh: u32 = (k * 8) as u32;
        let nv = v | (bb << sh);
        let ghost scale: int;
        if k == 0 {
            assert((v | (bb << sh)) == v + bb * 1) by (bit_vector)
                requires
                    v == 0u32,
                    sh == 0u32,
                    bb < 256u32,
            ;
            proof {
                scale = 1;
            }
        } else if k == 1 {
            assert((v | (bb << sh)) == v + bb * 256) by (bit_vector)
                requires
                    v < 256u32,
                    sh == 8u32,
                    bb < 256u32,
            ;
            proof {
                scale = 256;
            }
        } else if k == 2 {
            assert((v | (bb << sh)) == v + bb * 65536) by (bit_vector)
                requires
                    v < 65536u32,
                    sh == 16u32,
                    bb < 256u32,
            ;
            proof {
                scale = 65536;
            }
        } else {
            assert((v | (bb << sh)) == v + bb * 16777216) by (bit_vector)
                requires
                    v < 16777216u32,
                    sh == 24u32,
                    bb < 256u32,
            ;
            proof {
                scale = 16777216;
            }
        }
        assert(pow256(k as nat) == scale);
        assert(nv == old_v + scale * bb);
        assert(nv == old_v + pow256(k as nat) * b);
        v = nv;
        proof {
            let t = data@.take(k + 1);
            assert(t.drop_last() =~= data@.take(k as int));
            assert(t.last() == b);
            assert(le_value(t) == old_v + pow256(k as nat) * b);
            assert(pow256((k + 1) as nat) == 256 * pow256(k as nat));
            assert(old_v + pow256(k as nat) * b < pow256((k + 1) as nat)) by (nonlinear_arith)
                requires
                    old_v < pow256(k as nat),
                    b <= 255,
                    pow256((k + 1) as nat) == 256 * pow256(k as nat),
            ;
        }
        k += 1;
    }
    v
}

/// Data size of a short item from its prefix byte (`bSize` 3 means 4).
pub open spec fn item_data_size(prefix: u8) -> int {
    let t = prefix & 3;
    if t == 0 {
        0
    } else if t == 1 {
        1
    } else if t == 2 {
        2
    } else {
        4
    }
}

/// `bType` of a short item.
pub open spec fn item_type(prefix: u8) -> u8 {
    (prefix >> 2u8) & 3
}

/// `bTag` of a short item.
pub open spec fn item_tag(prefix: u8) -> u8 {
    (prefix >> 4u8) & 0x0F
}

/// Scanning the descriptor from item `i` with usage page `page` in force
/// finds a Local Usage `0x61` while the page is `0xFF60`. Long items are
/// skipped; a truncated item ends the scan without a match.
pub open spec fn sig_from(buf: Seq<u8>, i: int, page: u32) -> bool
    decreases buf.len() + 300 - i,
{
    if i < 0 || i >= buf.len() {
        false
    } else if buf[i] == 0xFE {
        if i + 1 >= buf.len() || i + 3 + buf[i + 1] > usize::MAX {
            false
        } else {
            sig_from(buf, i + 3 + buf[i + 1], page)
        }
    } else {
        let data_end = i + 1 + item_data_size(buf[i]);
        if data_end > buf.len() {
            false
        } else {
            let val = le_value(buf.subrange(i + 1, data_end));
            if item_type(buf[i]) == 1 && item_tag(buf[i]) == 0 {
                sig_from(buf, data_end, val as u32)
            } else if item_type(buf[i]) == 2 && item_tag(buf[i]) == 0 && page == QMK_USAGE_PAGE
                && val == QMK_USAGE {
                true
            } else {
                sig_from(buf, data_end, page)
            }
        }
    }
}

/// The descriptor carries the QMK Raw HID signature.
pub open spec fn spec_matches_qmk_signature(buf: Seq<u8>) -> bool {
    sig_from(buf, 0, 0)
}

proof fn lemma_sig_append(buf: Seq<u8>, more: Seq<u8>, i: int, page: u32)
    requires
        sig_from(buf, i, page),
    ensures
        sig_from(buf + more, i, page),
    decreases buf.len() + 300 - i,
{
    let b2 = buf + more;
    assert(0 <= i < buf.len());
    assert(b2[i] == buf[i]);
    if buf[i] == 0xFE {
        assert(b2[i + 1] == buf[i + 1]);
        lemma_sig_append(buf, more, i + 3 + buf[i + 1], page);
    } else {
        let data_end = i + 1 + item_data_size(buf[i]);
        assert(b2.subrange(i + 1, data_end) =~= buf.subrange(i + 1, data_end));
        let val = le_value(buf.subrange(i + 1, data_end));
        if item_type(buf[i]) == 1 && item_tag(buf[i]) == 0 {
            lemma_sig_append(buf, more, data_end, val as u32);
        } else if item_type(buf[i]) == 2 && item_tag(buf[i]) == 0 && page == QMK_USAGE_PAGE
            && val == QMK_USAGE {
        } else {
            lemma_sig_append(buf, more, data_end, page);
        }
    }
}

/// Recognition is decided by the first signature: whatever bytes follow a
/// descriptor that carries the QMK Raw HID signature (later usages, other
/// pages, truncated items), the longer descriptor carries it too.
pub proof fn law_signature_survives_appended_items(buf: Seq<u8>, more: Seq<u8>)
    requires
        spec_matches_qmk_signature(buf),
    ensures
        spec_matches_qmk_signature(buf + more),
{
    lemma_sig_append(buf, more, 0, 0);
}

/// The QMK Raw HID signature items: Usage Page `0xFF60` (`06 60 FF`), then
/// Usage `0x61` (`09 61`).
pub open spec fn qmk_signature_items() -> Seq<u8> {
    seq![0x06u8, 0x60u8, 0xFFu8, 0x09u8, 0x61u8]
}

/// A descriptor that starts with the Usage Page `0xFF60` item followed by
/// the Usage `0x61` item is recognised, whatever follows.
pub proof fn law_signature_prefix_is_recognised(more: Seq<u8>)
    ensures
        spec_matches_qmk_signature(qmk_signature_items() + more),
{
    let sig = qmk_signature_items();
    reveal_with_fuel(pow256, 3);
    assert(item_data_size(0x06u8) == 2) by {
        assert(0x06u8 & 3u8 == 2u8) by (bit_vector);
    }
    assert(item_type(0x06u8) == 1 && item_tag(0x06u8) == 0) by {
        assert((0x06u8 >> 2u8) & 3u8 == 1u8) by (bit_vector);
        assert((0x06u8 >> 4u8) & 0x0Fu8 == 0u8) by (bit_vector);
    }
    assert(item_data_size(0x09u8) == 1) by {
        assert(0x09u8 & 3u8 == 1u8) by (bit_vector);
    }
    assert(item_type(0x09u8) == 2 && item_tag(0x09u8) == 0) by {
        assert((0x09u8 >> 2u8) & 3u8 == 2u8) by (bit_vector);
        assert((0x09u8 >> 4u8) & 0x0Fu8 == 0u8) by (bit_vector);
    }
    let p = sig.subrange(1, 3);
    assert(p =~= seq![0x60u8, 0xFFu8]);
    assert(p.drop_last() =~= seq![0x60u8]);
    assert(p.drop_last().drop_last() =~= Seq::<u8>::empty());
    assert(pow256(0) == 1);
    assert(pow256(1) == 256);
    assert(le_value(p.drop_last().drop_last()) == 0);
    assert(le_value(p.drop_last()) == 0x60);
    assert(le_value(p) == 0x60 + 256 * 0xFF);
    let u = sig.subrange(4, 5);
    assert(u =~= seq![0x61u8]);
    assert(u.drop_last() =~= Seq::<u8>::empty());
    assert(le_value(u.drop_last()) == 0);
    assert(le_value(u) == 0x61);
    assert(sig_from(sig, 3, 0xFF60u32));
    assert(sig_from(sig, 0, 0));
    lemma_sig_append(sig, more, 0, 0);
}

/// Walk the HID report descriptor items looking for a Global Usage Page
/// `0xFF60` followed (with anything in between) by a Local Usage `0x61`.
pub fn matches_qmk_signature(buf: &[u8]) -> (r: bool)
    ensures
        r == spec_matches_qmk_signature(buf@),
{
    let mut current_usage_page: u32 = 0;
    let mut i: usize = 0;
    while i < buf.len()
        invariant
            sig_from(buf@, i as int, current_usage_page) == sig_from(buf@, 0, 0),
        decreases buf@.len() + 300 - i,
    {
        let prefix = buf[i];
        if prefix == 0xFE {
            if i + 1 >= buf.len() {
                return false;
            }
            let data_size = buf[i + 1] as usize;
            if i > usize::MAX - 3 || i + 3 > usize::MAX - data_size {
                return false;
            }
            i = i + 3 + data_size;
            continue;
        }
        let t = prefix & 0x03;
        let size: usize = if t == 0 {
            0
        } else if t == 1 {
            1
        } else if t == 2 {
            2
        } else {
            4
        };
        let btype = (prefix >> 2) & 0x03;
        let btag = (prefix >> 4) & 0x0F;
        let data_start = i + 1;
        if data_start > usize::MAX - size || data_start + size > buf.len() {
            return false;
        }
        let data_end = data_start + size;
        let data = &buf[data_start..data_end];
        proof {
            lemma_le_value_bound(data@);
            reveal_with_fuel(pow256, 5);
        }
        if btype == 1 && btag == 0 {
            current_usage_page = read_le(data);
            proof {
                assert(data@.take(data@.len() as int) =~= data@);
            }
        } else if btype == 2 && btag == 0 {
            let usage = read_le(data);
            proof {
                assert(data@.take(data@.len() as int) =~= data@);
            }
            if current_usage_page == QMK_USAGE_PAGE && usage == QMK_USAGE {
                return true;
            }
        }
        i = data_end;
    }
    false
}

/// `"/sys/"` followed by `devpath` without its leading slashes.
pub open spec fn spec_syspath(devpath: Seq<char>) -> Seq<char> {
    seq!['/', 's', 'y', 's', '/'] + devpath.skip(leading_slashes(devpath, 0) as int)
}

/// Number of `/` characters at the start of `s[i..]`.
pub open spec fn leading_slashes(s: Seq<char>, i: int) -> nat
    decreases s.len() - i,
{
    if i < 0 || i >= s.len() || s[i] != '/' {
        0
    } else {
        1 + leading_slashes(s, i + 1)
    }
}

proof fn lemma_leading_slashes_bounds(s: Seq<char>, i: int)
    requires
        0 <= i <= s.len(),
    ensures
        i + leading_slashes(s, i) <= s.len(),
    decreases s.len() - i,
{
    if i < s.len() && s[i] == '/' {
        lemma_leading_slashes_bounds(s, i + 1);
    }
}

/// Build the sysfs path of a hidraw node from a (possibly absolute) udev
/// `DEVPATH`: leading slashes are dropped before joining onto `/sys`.
pub fn syspath_from_devpath(devpath: &str) -> (p: String)
    ensures
        p@ == spec_syspath(devpath@),
{
    broadcast use vstd::string::group_string_axioms, vstd::string::next_postcondition;

    let mut out = String::new();
    push_char(&mut out, '/');
    push_char(&mut out, 's');
    push_char(&mut out, 'y');
    push_char(&mut out, 's');
    push_char(&mut out, '/');
    let ghost d = devpath@;
    let ghost skip = leading_slashes(d, 0) as int;
    let mut leading = true;
    let ghost mut k: int = 0;
    let mut it = devpath.chars();
    proof {
        assert(d.skip(0) =~= d);
    }
    loop
        invariant
            IteratorSpec::remaining(&it) == d.skip(k),
            d == devpath@,
            skip == leading_slashes(d, 0),
            0 <= k <= d.len(),
            leading ==> leading_slashes(d, 0) == k + leading_slashes(d, k),
            !leading ==> out@ == seq!['/', 's', 'y', 's', '/'] + d.subrange(skip, k),
            !leading ==> 0 <= skip <= k,
            leading ==> out@ == seq!['/', 's', 'y', 's', '/'],
        ensures
            k == d.len(),
            skip == leading_slashes(d, 0),
            leading ==> leading_slashes(d, 0) == k + leading_slashes(d, k),
            !leading ==> out@ == seq!['/', 's', 'y', 's', '/'] + d.subrange(skip, k),
            !leading ==> 0 <= skip <= k,
            leading ==> out@ == seq!['/', 's', 'y', 's', '/'],
        decreases d.len() - k,
    {
        let ghost rem = IteratorSpec::remaining(&it);
        match it.next() {
            Some(c) => {
                proof {
                    assert(d.skip(k).len() > 0);
                    assert(c == d[k]);
                    assert(d.skip(k).drop_first() =~= d.skip(k + 1));
                    lemma_leading_slashes_bounds(d, 0);
                }
                if leading && c == '/' {
                } else {
                    if leading {
                        proof {
                            assert(leading_slashes(d, k) == 0);
                            assert(d.subrange(skip, k) =~= Seq::<char>::empty());
                        }
                    }
                    leading = false;
                    push_char(&mut out, c);
                    proof {
                        assert(d.subrange(skip, k + 1) =~= d.subrange(skip, k).push(c));
                    }
                }
                proof {
                    k = k + 1;
                }
            },
            None => {
                proof {
                    assert(d.skip(k).len() == 0);
                }
                break;
            },
        }
    }
    proof {
        lemma_leading_slashes_bounds(d, 0);
        if leading {
            assert(leading_slashes(d, k) == 0);
            assert(d.skip(skip) =~= Seq::<char>::empty());
        } else {
            assert(d.skip(skip) =~= d.subrange(skip, k));
        }
    }
    out
}

} // verus!
