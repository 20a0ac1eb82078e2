use vstd::prelude::*;

verus! {

/// Size of the sliding window (a power of two).
pub const SLIDE_N: usize = 4096;

/// Longest match that one back-reference can encode.
pub const SLIDE_M: usize = 18 + 255;

/// Length of the window buffer: the window followed by a mirror of its
/// first `SLIDE_M - 1` bytes, so that matches can be compared without wrapping.
pub const TEXT_LEN: usize = 4096 + 273 - 1;

/// Number of distinct two-byte keys.
pub const KEY_COUNT: usize = 65536;

// ---------------------------------------------------------------------------
// The window model: a window of `SLIDE_N` bytes and a write position.
// ---------------------------------------------------------------------------

/// Writes `c` at the write position `s` and advances it (cyclically).
pub open spec fn put(w: Seq<u8>, s: int, c: u8) -> (Seq<u8>, int) {
    (w.update(s, c), (s + 1) % (SLIDE_N as int))
}

/// Writes the bytes of `bytes` one after another.
pub open spec fn write_all(w: Seq<u8>, s: int, bytes: Seq<u8>) -> (Seq<u8>, int)
    decreases bytes.len(),
{
    if bytes.len() == 0 {
        (w, s)
    } else {
        let (w1, s1) = write_all(w, s, bytes.drop_last());
        put(w1, s1, bytes.last())
    }
}

/// Copies `len` bytes out of the window starting at `pos`, writing each byte
/// back at the write position as it goes (the decoder's back-reference).
/// Returns the bytes copied, the new window and the new write position.
pub open spec fn copy_run(w: Seq<u8>, s: int, pos: int, len: nat) -> (Seq<u8>, Seq<u8>, int)
    decreases len,
{
    if len == 0 {
        (seq![], w, s)
    } else {
        let (o, w1, s1) = copy_run(w, s, pos, (len - 1) as nat);
        let c = w1[(pos + len - 1) % (SLIDE_N as int)];
        let (w2, s2) = put(w1, s1, c);
        (o.push(c), w2, s2)
    }
}

/// The initial window: all zeros, write position 0.
pub open spec fn initial_window() -> Seq<u8> {
    Seq::new(SLIDE_N as nat, |i: int| 0u8)
}

/// Two-byte key of window position `p`: the byte at `p` and the byte after it.
pub open spec fn key_at(text: Seq<u8>, p: int) -> int {
    text[p] as int + 256 * (text[(p + 1) % (SLIDE_N as int)] as int)
}

// ---------------------------------------------------------------------------
// The compressed stream
// ---------------------------------------------------------------------------

/// One item of a compressed stream: a literal byte, or a back-reference
/// `(position, length)` into the window.
#[derive(Clone, Copy, Debug, PartialEq, Eq, Structural)]
pub enum Token {
    Literal(u8),
    Backref(u16, u16),
}

pub open spec fn token_wf(t: Token) -> bool {
    match t {
        Token::Literal(_) => true,
        Token::Backref(p, l) => p < SLIDE_N && 3 <= l <= SLIDE_M,
    }
}

pub open spec fn tokens_wf(ts: Seq<Token>) -> bool {
    forall|k: int| 0 <= k < ts.len() ==> #[trigger] token_wf(ts[k])
}

pub open spec fn is_backref(t: Token) -> bool {
    t is Backref
}

/// The bytes that encode one item: a literal is the byte itself; a
/// back-reference is the low byte of the position, then the high nibble of
/// the position with `length - 3` in the upper nibble, or `0xf` there and
/// `length - 18` in a third byte for lengths of 18 and more.
pub open spec fn item_bytes(t: Token) -> Seq<u8> {
    match t {
        Token::Literal(c) => seq![c],
        Token::Backref(pos, len) => if len >= 18 {
            seq![(pos % 256) as u8, (pos / 256 + 240) as u8, (len - 18) as u8]
        } else {
            seq![(pos % 256) as u8, (pos / 256 + 16 * (len - 3)) as u8]
        },
    }
}

/// Bit `j` of the flag byte of a group is set when item `j` is a back-reference.
pub open spec fn flag_byte(g: Seq<Token>) -> u8
    decreases g.len(),
{
    if g.len() == 0 {
        0u8
    } else {
        flag_byte(g.drop_last()) | (if is_backref(g.last()) {
            1u8 << ((g.len() - 1) as u8)
        } else {
            0u8
        })
    }
}

pub open spec fn items(g: Seq<Token>) -> Seq<u8>
    decreases g.len(),
{
    if g.len() == 0 {
        seq![]
    } else {
        items(g.drop_last()) + item_bytes(g.last())
    }
}

/// A group of up to eight items: its flag byte, then the items.
pub open spec fn group_bytes(g: Seq<Token>) -> Seq<u8> {
    seq![flag_byte(g)] + items(g)
}

/// The byte stream of a sequence of items: groups of eight, the last one
/// possibly shorter.
pub open spec fn serialize(ts: Seq<Token>) -> Seq<u8>
    decreases ts.len(),
{
    if ts.len() == 0 {
        seq![]
    } else if ts.len() <= 8 {
        group_bytes(ts)
    } else {
        group_bytes(ts.take(8)) + serialize(ts.skip(8))
    }
}

/// What one item produces, and the window after it.
pub open spec fn apply_token(t: Token, w: Seq<u8>, s: int) -> (Seq<u8>, Seq<u8>, int) {
    match t {
        Token::Literal(c) => {
            let (w1, s1) = put(w, s, c);
            (seq![c], w1, s1)
        },
        Token::Backref(p, l) => copy_run(w, s, p as int, l as nat),
    }
}

/// What a sequence of items produces, and the window after it.
pub open spec fn apply_tokens(ts: Seq<Token>, w: Seq<u8>, s: int) -> (Seq<u8>, Seq<u8>, int)
    decreases ts.len(),
{
    if ts.len() == 0 {
        (seq![], w, s)
    } else {
        let (o, w1, s1) = apply_tokens(ts.drop_last(), w, s);
        let (o2, w2, s2) = apply_token(ts.last(), w1, s1);
        (o + o2, w2, s2)
    }
}

/// The flag mask for item `j` of a group; 0 once the group is full.
pub open spec fn mask_at(j: int) -> u8 {
    if 0 <= j < 8 {
        1u8 << (j as u8)
    } else {
        0u8
    }
}

/// The decompressor, from input offset `i` with flag mask `mask` and the
/// current flag byte `code`: the bytes it produces, and the final window and
/// write position.  It stops at the end of the input, or where an item is cut
/// short by the end of the input.
pub open spec fn dec_from(input: Seq<u8>, i: int, mask: u8, code: u8, w: Seq<u8>, s: int) -> (
    Seq<u8>,
    Seq<u8>,
    int,
)
    decreases input.len() - i,
{
    if i < 0 || i >= input.len() {
        (seq![], w, s)
    } else {
        let code2 = if mask == 0 {
            input[i]
        } else {
            code
        };
        let i2 = if mask == 0 {
            i + 1
        } else {
            i
        };
        let mask2: u8 = if mask == 0 {
            1u8
        } else {
            mask
        };
        let next_mask: u8 = mask2 << 1u8;
        if code2 & mask2 != 0 {
            if i2 + 1 >= input.len() {
                (seq![], w, s)
            } else {
                let b1 = input[i2] as int;
                let b2 = input[i2 + 1] as int;
                let pos = (b2 % 16) * 256 + b1;
                let lf = b2 / 16;
                if lf == 15 && i2 + 2 >= input.len() {
                    (seq![], w, s)
                } else {
                    let len = if lf == 15 {
                        18 + input[i2 + 2] as int
                    } else {
                        lf + 3
                    };
                    let i3 = if lf == 15 {
                        i2 + 3
                    } else {
                        i2 + 2
                    };
                    let (o1, w1, s1) = copy_run(w, s, pos, len as nat);
                    let (o2, w2, s2) = dec_from(input, i3, next_mask, code2, w1, s1);
                    (o1 + o2, w2, s2)
                }
            }
        } else {
            if i2 >= input.len() {
                (seq![], w, s)
            } else {
                let c = input[i2];
                let (w1, s1) = put(w, s, c);
                let (o2, w2, s2) = dec_from(input, i2 + 1, next_mask, code2, w1, s1);
                (seq![c] + o2, w2, s2)
            }
        }
    }
}

/// Decompression of a whole stream from window `w` and write position `s`.
pub open spec fn lz_decode(input: Seq<u8>, w: Seq<u8>, s: int) -> (Seq<u8>, Seq<u8>, int) {
    dec_from(input, 0, 0u8, 0u8, w, s)
}

// ---------------------------------------------------------------------------
// Lemmas on the stream format
// ---------------------------------------------------------------------------

proof fn lemma_mask_step(j: int)
    requires
        0 <= j < 8,
    ensures
        (mask_at(j) << 1u8) == mask_at(j + 1),
        mask_at(j) != 0,
{
    let b = j as u8;
    assert(b < 7 ==> ((1u8 << b) << 1u8) == (1u8 << ((b + 1) as u8))) by (bit_vector);
    assert(b == 7 ==> ((1u8 << b) << 1u8) == 0u8) by (bit_vector);
    assert(b < 8 ==> (1u8 << b) != 0u8) by (bit_vector);
}

proof fn lemma_flag_bits(g: Seq<Token>, j: int)
    requires
        g.len() <= 8,
        0 <= j < 8,
    ensures
        (flag_byte(g) & mask_at(j) != 0) == (j < g.len() && is_backref(g[j])),
    decreases g.len(),
{
    if g.len() > 0 {
        let g1 = g.drop_last();
        let n = (g.len() - 1) as u8;
        let b = j as u8;
        let x = flag_byte(g1);
        lemma_flag_bits(g1, j);
        assert(n < 8 && b < 8 && n != b ==> ((x | (1u8 << n)) & (1u8 << b)) == (x & (1u8 << b))) by (bit_vector);
        assert(n < 8 ==> ((x | (1u8 << n)) & (1u8 << n)) != 0u8) by (bit_vector);
        assert((x | 0u8) == x) by (bit_vector);
        if j < g1.len() {
            assert(g1[j] == g[j]);
        }
    } else {
        assert(flag_byte(g) == 0u8);
        let b = j as u8;
        assert((0u8 & (1u8 << b)) == 0u8) by (bit_vector);
    }
}

proof fn lemma_items_append(a: Seq<Token>, b: Seq<Token>)
    ensures
        items(a + b) == items(a) + items(b),
    decreases b.len(),
{
    if b.len() == 0 {
        assert(a + b =~= a);
        assert(items(a) + items(b) =~= items(a));
    } else {
        lemma_items_append(a, b.drop_last());
        assert((a + b).drop_last() =~= a + b.drop_last());
        assert((a + b).last() == b.last());
        assert(items(a + b) =~= items(a) + items(b));
    }
}

proof fn lemma_items_cons(g: Seq<Token>, j: int)
    requires
        0 <= j < g.len(),
    ensures
        items(g.skip(j)) == item_bytes(g[j]) + items(g.skip(j + 1)),
{
    assert(g.skip(j) =~= seq![g[j]] + g.skip(j + 1));
    lemma_items_append(seq![g[j]], g.skip(j + 1));
    let one = seq![g[j]];
    assert(one.drop_last() =~= Seq::<Token>::empty());
    assert(one.last() == g[j]);
    assert(items(one) == items(one.drop_last()) + item_bytes(g[j]));
    assert(items(Seq::<Token>::empty()) =~= Seq::<u8>::empty());
    assert(items(one) =~= item_bytes(g[j]));
}

pub proof fn lemma_apply_append(a: Seq<Token>, b: Seq<Token>, w: Seq<u8>, s: int)
    ensures
        apply_tokens(a + b, w, s) == ({
            let (o1, w1, s1) = apply_tokens(a, w, s);
            let (o2, w2, s2) = apply_tokens(b, w1, s1);
            (o1 + o2, w2, s2)
        }),
    decreases b.len(),
{
    if b.len() == 0 {
        assert(a + b =~= a);
        let (o1, w1, s1) = apply_tokens(a, w, s);
        assert(o1 + Seq::<u8>::empty() =~= o1);
    } else {
        lemma_apply_append(a, b.drop_last(), w, s);
        assert((a + b).drop_last() =~= a + b.drop_last());
        assert((a + b).last() == b.last());
        let (o1, w1, s1) = apply_tokens(a, w, s);
        let (oa, wa, sa) = apply_tokens(b.drop_last(), w1, s1);
        let (ob, wb, sb) = apply_token(b.last(), wa, sa);
        assert(o1 + (oa + ob) =~= (o1 + oa) + ob);
    }
}

proof fn lemma_apply_cons(t: Token, rest: Seq<Token>, w: Seq<u8>, s: int)
    ensures
        apply_tokens(seq![t] + rest, w, s) == ({
            let (o1, w1, s1) = apply_token(t, w, s);
            let (o2, w2, s2) = apply_tokens(rest, w1, s1);
            (o1 + o2, w2, s2)
        }),
{
    lemma_apply_append(seq![t], rest, w, s);
    let one = seq![t];
    assert(one.drop_last() =~= Seq::<Token>::empty());
    assert(one.last() == t);
    let (o1, w1, s1) = apply_token(t, w, s);
    assert(apply_tokens(one.drop_last(), w, s) == (Seq::<u8>::empty(), w, s));
    assert(Seq::<u8>::empty() + o1 =~= o1);
    assert(apply_tokens(one, w, s) == (o1, w1, s1));
}

proof fn lemma_dec_start(input: Seq<u8>, i: int, code: u8, w: Seq<u8>, s: int)
    requires
        0 <= i < input.len(),
    ensures
        dec_from(input, i, 0u8, code, w, s) == dec_from(input, i + 1, 1u8, input[i], w, s),
{
    assert((1u8 & 1u8) != 0u8) by (bit_vector);
}

proof fn lemma_nibbles(pos: u16, len: u16)
    requires
        pos < SLIDE_N,
        3 <= len <= SLIDE_M,
    ensures
        len >= 18 ==> ((pos / 256 + 240) as u8) as int % 16 == pos / 256 && ((pos / 256
            + 240) as u8) as int / 16 == 15,
        len < 18 ==> ((pos / 256 + 16 * (len - 3)) as u8) as int % 16 == pos / 256 && ((pos
            / 256 + 16 * (len - 3)) as u8) as int / 16 == len - 3,
        ((pos / 256) as int) * 256 + ((pos % 256) as u8) as int == pos,
{
}

proof fn lemma_subrange_split(input: Seq<u8>, i: int, a: Seq<u8>, b: Seq<u8>)
    requires
        0 <= i <= input.len(),
        input.subrange(i, input.len() as int) == a + b,
    ensures
        i + a.len() <= input.len(),
        forall|k: int| 0 <= k < a.len() ==> input[i + k] == #[trigger] a[k],
        input.subrange(i + a.len(), input.len() as int) == b,
{
    let sub = input.subrange(i, input.len() as int);
    assert(sub.len() == a.len() + b.len());
    assert forall|k: int| 0 <= k < a.len() implies input[i + k] == #[trigger] a[k] by {
        assert(sub[k] == (a + b)[k]);
    }
    assert forall|k: int| 0 <= k < b.len() implies input.subrange(i + a.len(), input.len() as int)[k] == b[k] by {
        assert(sub[a.len() + k] == (a + b)[a.len() + k]);
    }
    assert(input.subrange(i + a.len(), input.len() as int) =~= b);
}

proof fn lemma_dec_group(
    input: Seq<u8>,
    i: int,
    g: Seq<Token>,
    j: int,
    rest: Seq<Token>,
    w: Seq<u8>,
    s: int,
)
    requires
        0 <= i <= input.len(),
        tokens_wf(g),
        tokens_wf(rest),
        0 < g.len() <= 8,
        0 <= j <= g.len(),
        g.len() == 8 || rest.len() == 0,
        input.subrange(i, input.len() as int) == items(g.skip(j)) + serialize(rest),
    ensures
        dec_from(input, i, mask_at(j), flag_byte(g), w, s) == apply_tokens(g.skip(j) + rest, w, s),
    decreases input.len() - i, 1int,
{
    if j == g.len() {
        assert(g.skip(j) + rest =~= rest);
        assert(g.skip(j) =~= Seq::<Token>::empty());
        assert(items(g.skip(j)) =~= Seq::<u8>::empty());
        if g.len() < 8 {
            assert(serialize(rest) =~= Seq::<u8>::empty());
            assert(input.subrange(i, input.len() as int).len() == 0);
        } else {
            assert(Seq::<u8>::empty() + serialize(rest) =~= serialize(rest));
            lemma_dec_all(input, i, rest, flag_byte(g), w, s);
        }
    } else {
        let t = g[j];
        lemma_items_cons(g, j);
        lemma_flag_bits(g, j);
        lemma_mask_step(j);
        assert(g.skip(j) + rest =~= seq![t] + (g.skip(j + 1) + rest));
        lemma_apply_cons(t, g.skip(j + 1) + rest, w, s);
        let tail = items(g.skip(j + 1)) + serialize(rest);
        let sub = input.subrange(i, input.len() as int);
        assert(sub =~= item_bytes(t) + tail);
        assert(tokens_wf(g) ==> token_wf(g[j]));
        match t {
            Token::Literal(c) => {
                lemma_subrange_split(input, i, item_bytes(t), tail);
                assert(item_bytes(t)[0] == c);
                assert(input[i] == c);
                let (w1, s1) = put(w, s, c);
                lemma_dec_group(input, i + 1, g, j + 1, rest, w1, s1);
            },
            Token::Backref(pos, len) => {
                lemma_nibbles(pos, len);
                lemma_subrange_split(input, i, item_bytes(t), tail);
                let (o1, w1, s1) = copy_run(w, s, pos as int, len as nat);
                if len >= 18 {
                    lemma_dec_group(input, i + 3, g, j + 1, rest, w1, s1);
                } else {
                    lemma_dec_group(input, i + 2, g, j + 1, rest, w1, s1);
                }
            },
        }
    }
}

proof fn lemma_dec_all(input: Seq<u8>, i: int, ts: Seq<Token>, code: u8, w: Seq<u8>, s: int)
    requires
        0 <= i <= input.len(),
        tokens_wf(ts),
        input.subrange(i, input.len() as int) == serialize(ts),
    ensures
        dec_from(input, i, 0u8, code, w, s) == apply_tokens(ts, w, s),
    decreases input.len() - i, 0int,
{
    if ts.len() == 0 {
        assert(input.subrange(i, input.len() as int).len() == 0);
    } else {
        let n: int = if ts.len() <= 8 {
            ts.len() as int
        } else {
            8
        };
        let g = ts.take(n);
        let rest = ts.skip(n);
        assert(g + rest =~= ts);
        if ts.len() <= 8 {
            assert(g =~= ts);
            assert(rest =~= Seq::<Token>::empty());
            assert(serialize(rest) =~= Seq::<u8>::empty());
            assert(serialize(ts) =~= group_bytes(g) + serialize(rest));
        }
        assert(serialize(ts) == group_bytes(g) + serialize(rest));
        assert(g.skip(0) =~= g);
        assert(group_bytes(g) + serialize(rest) =~= seq![flag_byte(g)] + (items(g.skip(0)) + serialize(rest)));
        lemma_subrange_split(input, i, seq![flag_byte(g)], items(g.skip(0)) + serialize(rest));
        assert(seq![flag_byte(g)][0] == flag_byte(g));
        assert(input[i] == flag_byte(g));
        lemma_dec_start(input, i, code, w, s);
        assert(mask_at(0) == 1u8) by {
            assert((1u8 << 0u8) == 1u8) by (bit_vector);
        }
        assert(tokens_wf(g));
        assert(tokens_wf(rest));
        lemma_dec_group(input, i + 1, g, 0, rest, w, s);
        assert(g.skip(0) =~= g);
    }
}

/// Decompressing the stream of a sequence of well-formed items produces
/// exactly what the items describe, from any window.
pub proof fn lemma_roundtrip(ts: Seq<Token>, w: Seq<u8>, s: int)
    requires
        tokens_wf(ts),
    ensures
        lz_decode(serialize(ts), w, s) == apply_tokens(ts, w, s),
{
    let b = serialize(ts);
    assert(b.subrange(0, b.len() as int) =~= b);
    lemma_dec_all(b, 0, ts, 0u8, w, s);
}

/// Appending a group to whole groups appends its bytes.
proof fn lemma_serialize_append(full: Seq<Token>, p: Seq<Token>)
    requires
        full.len() % 8 == 0,
        0 < p.len() <= 8,
    ensures
        serialize(full + p) == serialize(full) + group_bytes(p),
    decreases full.len(),
{
    if full.len() == 0 {
        assert(full + p =~= p);
        assert(serialize(full) + group_bytes(p) =~= group_bytes(p));
    } else {
        let fp = full + p;
        assert(fp.take(8) =~= full.take(8));
        assert(fp.skip(8) =~= full.skip(8) + p);
        lemma_serialize_append(full.skip(8), p);
        if full.len() == 8 {
            assert(full.skip(8) =~= Seq::<Token>::empty());
            assert(full.take(8) =~= full);
            assert(serialize(full.skip(8)) =~= Seq::<u8>::empty());
            assert(full.skip(8) + p =~= p);
        }
        assert(serialize(fp) =~= serialize(full) + group_bytes(p));
    }
}

// ---------------------------------------------------------------------------
// The compressor state
// ---------------------------------------------------------------------------

#[derive(Clone, Copy)]
struct Chain {
    prev: i32,
    next: i32,
}

/// LZSS compressor and decompressor of TLG5 with a 4096-byte window.
///
/// Positions of the window are kept in doubly linked lists, one per two-byte
/// key, so that candidate matches can be found quickly.  The state can be
/// saved with `store` and brought back with `restore`.
pub struct SlideCompressor {
    text: Vec<u8>,
    s: usize,
    map: Vec<i32>,
    chains: Vec<Chain>,
    rank: Ghost<Seq<nat>>,
    clock: Ghost<nat>,
    backup_text: Vec<u8>,
    backup_s: usize,
    backup_map: Vec<i32>,
    backup_chains: Vec<Chain>,
    backup_rank: Ghost<Seq<nat>>,
    backup_clock: Ghost<nat>,
    detached: Ghost<Set<int>>,
    backup_detached: Ghost<Set<int>>,
}

/// The mirror region repeats the start of the window.
pub open spec fn mirrored(text: Seq<u8>) -> bool {
    &&& text.len() == TEXT_LEN
    &&& forall|j: int| 0 <= j < SLIDE_M - 1 ==> #[trigger] text[SLIDE_N + j] == text[j]
}

/// The hash chains are consistent with the text.  Positions in `d` are
/// detached: they are in no list and nothing points at them.
spec fn links_ok(text: Seq<u8>, map: Seq<i32>, chains: Seq<Chain>, rank: Seq<nat>, d: Set<int>) -> bool {
    &&& text.len() == TEXT_LEN
    &&& map.len() == KEY_COUNT
    &&& chains.len() == SLIDE_N
    &&& rank.len() == SLIDE_N
    &&& forall|k: int|
        #![trigger map[k]]
        0 <= k < KEY_COUNT ==> {
            let h = map[k] as int;
            h == -1 || (0 <= h < SLIDE_N && !d.contains(h) && key_at(text, h) == k && chains[h].prev
                == -1)
        }
    &&& forall|p: int|
        #![trigger chains[p]]
        0 <= p < SLIDE_N && !d.contains(p) ==> {
            let c = chains[p];
            &&& (c.next == -1 || (0 <= c.next < SLIDE_N && !d.contains(c.next as int) && key_at(
                text,
                c.next as int,
            ) == key_at(text, p) && chains[c.next as int].prev == p && rank[c.next as int]
                < rank[p]))
            &&& (c.prev != -1 ==> 0 <= c.prev < SLIDE_N && !d.contains(c.prev as int) && key_at(
                text,
                c.prev as int,
            ) == key_at(text, p) && chains[c.prev as int].next == p)
        }
    &&& forall|p: int|
        #![trigger chains[p]]
        0 <= p < SLIDE_N && d.contains(p) ==> chains[p].prev == -1 && chains[p].next == -1
}

/// Byte key of two bytes, as the compressor computes it.
fn key_of(a: u8, b: u8) -> (k: usize)
    ensures
        k == a as int + 256 * b as int,
        k < KEY_COUNT,
{
    let x = a as usize;
    let y = b as usize;
    assert(x < 256 && y < 256 ==> (x | (y << 8)) == x + 256 * y) by (bit_vector);
    x | (y << 8)
}

/// `x & (SLIDE_N - 1)`, the position `x` wrapped into the window.
fn wrap(x: usize) -> (r: usize)
    ensures
        r == (x as int) % (SLIDE_N as int),
{
    assert(x & 4095 == x % 4096) by (bit_vector);
    x & (SLIDE_N - 1)
}

/// The end bound that the match finder puts on a comparison starting at
/// `po`, given the write position `s` and the unrestricted end `big`.
pub open spec fn match_limit(s: int, po: int, big: int) -> int {
    if big >= SLIDE_N {
        if po <= s {
            s
        } else if s < big - SLIDE_N {
            s + SLIDE_N
        } else {
            big
        }
    } else if po <= s && s < big {
        s
    } else {
        big
    }
}

/// The length of the match of the window from `h` with the input from `i`,
/// the bytes from `p` on compared while they are before `lim` (the bytes
/// before `p` matching already).
pub open spec fn match_run(w: Seq<u8>, h: int, input: Seq<u8>, i: int, p: int, lim: int) -> int
    decreases lim - p,
{
    if p < lim && w[p % (SLIDE_N as int)] == input[i + (p - h)] {
        match_run(w, h, input, i, p + 1, lim)
    } else {
        p - h
    }
}

/// The match the finder measures at window position `h` (whose two bytes
/// are the input's next two) for the input from `i`, with write position
/// `s`: up to 18 bytes, or up to the end of the input, and never reaching
/// the write position; 0 at the write position and just before it.
pub open spec fn match_at(w: Seq<u8>, s: int, h: int, input: Seq<u8>, i: int) -> int {
    if h == s || (h + 1) % (SLIDE_N as int) == s {
        0
    } else {
        let curlen = input.len() - i - 1;
        let big = (if SLIDE_M < curlen { SLIDE_M as int } else { curlen }) + h;
        match_run(w, h, input, i, h + 2, match_limit(s, h, big))
    }
}

/// Whether window position `q` holds the input's next two bytes.
pub open spec fn key_matches(w: Seq<u8>, q: int, input: Seq<u8>, i: int) -> bool {
    0 <= q < SLIDE_N && key_at(w, q) == input[i] as int + 256 * input[i + 1] as int
}

/// The back-reference the compressor takes for the input from `i`: among
/// the window positions holding the input's next two bytes, the longest
/// match (of at least three bytes), and among the longest the position
/// linked last (`recency`).
pub open spec fn best_match(w: Seq<u8>, s: int, recency: Seq<nat>, input: Seq<u8>, i: int, pos: int, len: int) -> bool {
    &&& key_matches(w, pos, input, i)
    &&& match_at(w, s, pos, input, i) == len
    &&& len >= 3
    &&& forall|q: int| #[trigger] key_matches(w, q, input, i) ==> match_at(w, s, q, input, i) <= len
    &&& forall|q: int| #[trigger] key_matches(w, q, input, i) && match_at(w, s, q, input, i) == len ==> recency[q] <= recency[pos]
}

/// Whether no window position gives a match of three bytes or more for the
/// input from `i` (or fewer than three bytes are left).
pub open spec fn no_match(w: Seq<u8>, s: int, input: Seq<u8>, i: int) -> bool {
    input.len() - i < 3 || forall|q: int| #[trigger] key_matches(w, q, input, i) ==> match_at(w, s, q, input, i) < 3
}

/// When each window position was last linked into the lists, after
/// writing `bytes` from write position `s` of window `w` at time `clock`:
/// each write links the position before the write position, then the write
/// position, one time step apart.
pub open spec fn relinked(rank: Seq<nat>, w: Seq<u8>, s: int, clock: nat, bytes: Seq<u8>) -> Seq<nat>
    decreases bytes.len(),
{
    if bytes.len() == 0 {
        rank
    } else {
        let n = (bytes.len() - 1) as nat;
        let r = relinked(rank, w, s, clock, bytes.drop_last());
        let p = write_all(w, s, bytes.drop_last()).1;
        r.update((p + SLIDE_N - 1) % (SLIDE_N as int), clock + 2 * n).update(p, clock + 2 * n + 1)
    }
}

/// The items the compressor produces for the input from `i` on, having
/// started on the input at window `w`, write position `s`, link times
/// `rank` and time `clock`: a back-reference where some match of three
/// bytes or more exists (`best_match`), a literal otherwise.
pub open spec fn lz_tokens(w: Seq<u8>, s: int, rank: Seq<nat>, clock: nat, input: Seq<u8>, i: int) -> Seq<Token>
    decreases (if i < input.len() { input.len() - i } else { 0int }),
{
    if i < 0 || i >= input.len() {
        Seq::empty()
    } else {
        let (wi, si) = write_all(w, s, input.take(i));
        let ri = relinked(rank, w, s, clock, input.take(i));
        if exists|pl: (int, int)| best_match(wi, si, ri, input, i, pl.0, pl.1) {
            let pl = choose|pl: (int, int)| best_match(wi, si, ri, input, i, pl.0, pl.1);
            proof {
                assert(best_match(wi, si, ri, input, i, pl.0, pl.1));
            }
            seq![Token::Backref(pl.0 as u16, pl.1 as u16)] + lz_tokens(w, s, rank, clock, input, i + pl.1)
        } else {
            seq![Token::Literal(input[i])] + lz_tokens(w, s, rank, clock, input, i + 1)
        }
    }
}

/// Where the compressor's back-reference for the input from `i` is
/// `(pos, len)`, its items from `i` on are that back-reference and then its
/// items from `i + len` on.
proof fn lemma_lz_backref(
    w0: Seq<u8>,
    s0: int,
    r0: Seq<nat>,
    c0: nat,
    input: Seq<u8>,
    i: int,
    wa: Seq<u8>,
    sa: int,
    ra: Seq<nat>,
    pos: int,
    len: int,
)
    requires
        0 <= i < input.len(),
        write_all(w0, s0, input.take(i)) == (wa, sa),
        relinked(r0, w0, s0, c0, input.take(i)) == ra,
        best_match(wa, sa, ra, input, i, pos, len),
        forall|pl: (int, int)| #[trigger] best_match(wa, sa, ra, input, i, pl.0, pl.1) ==> pl == (pos, len),
    ensures
        lz_tokens(w0, s0, r0, c0, input, i) == seq![Token::Backref(pos as u16, len as u16)] + lz_tokens(w0, s0, r0, c0, input, i + len),
{
    assert(exists|pl: (int, int)| best_match(wa, sa, ra, input, i, pl.0, pl.1)) by {
        assert(best_match(wa, sa, ra, input, i, (pos, len).0, (pos, len).1));
    }
    let pl = choose|pl: (int, int)| best_match(wa, sa, ra, input, i, pl.0, pl.1);
    assert(pl == (pos, len));
    let wi = write_all(w0, s0, input.take(i)).0;
    let si = write_all(w0, s0, input.take(i)).1;
    let ri = relinked(r0, w0, s0, c0, input.take(i));
    assert(wi == wa && si == sa && ri == ra);
    let pl2 = choose|pl: (int, int)| best_match(wi, si, ri, input, i, pl.0, pl.1);
    assert(pl2 == pl);
}

/// Where the compressor takes no back-reference for the input from `i`,
/// its items from `i` on are a literal and then its items from `i + 1` on.
proof fn lemma_lz_literal(w0: Seq<u8>, s0: int, r0: Seq<nat>, c0: nat, input: Seq<u8>, i: int, wa: Seq<u8>, sa: int, ra: Seq<nat>)
    requires
        0 <= i < input.len(),
        write_all(w0, s0, input.take(i)) == (wa, sa),
        relinked(r0, w0, s0, c0, input.take(i)) == ra,
        !exists|pl: (int, int)| best_match(wa, sa, ra, input, i, pl.0, pl.1),
    ensures
        lz_tokens(w0, s0, r0, c0, input, i) == seq![Token::Literal(input[i])] + lz_tokens(w0, s0, r0, c0, input, i + 1),
{
}

/// The number of input bytes the items stand for.
pub open spec fn covered(ts: Seq<Token>) -> int
    decreases ts.len(),
{
    if ts.len() == 0 {
        0
    } else {
        covered(ts.drop_last()) + match ts.last() {
            Token::Literal(_) => 1int,
            Token::Backref(_, l) => l as int,
        }
    }
}

proof fn lemma_covered_add(a: Seq<Token>, b: Seq<Token>)
    ensures
        covered(a + b) == covered(a) + covered(b),
        items(a + b) == items(a) + items(b),
    decreases b.len(),
{
    if b.len() == 0 {
        assert(a + b =~= a);
        assert(items(a) + items(b) =~= items(a));
    } else {
        lemma_covered_add(a, b.drop_last());
        assert((a + b).drop_last() =~= a + b.drop_last());
        assert((a + b).last() == b.last());
        assert(items(a) + items(b.drop_last()) + item_bytes(b.last()) =~= items(a) + items(b));
    }
}

proof fn lemma_items_len(ts: Seq<Token>)
    requires
        tokens_wf(ts),
    ensures
        items(ts).len() <= covered(ts),
    decreases ts.len(),
{
    if ts.len() > 0 {
        let t0 = ts.drop_last();
        assert forall|k: int| 0 <= k < t0.len() implies #[trigger] token_wf(t0[k]) by {
            assert(t0[k] == ts[k]);
        }
        lemma_items_len(t0);
        assert(token_wf(ts[ts.len() - 1]));
    }
}

/// The serialized items take at most one byte per input byte they stand
/// for, and a flag byte per group of eight.
proof fn lemma_serialize_len(ts: Seq<Token>)
    requires
        tokens_wf(ts),
    ensures
        serialize(ts).len() <= covered(ts) + (ts.len() + 7) / 8,
    decreases ts.len(),
{
    if ts.len() > 0 {
        if ts.len() <= 8 {
            lemma_items_len(ts);
        } else {
            let a = ts.take(8);
            let b = ts.skip(8);
            assert(ts =~= a + b);
            lemma_covered_add(a, b);
            assert forall|k: int| 0 <= k < a.len() implies #[trigger] token_wf(a[k]) by {
                assert(a[k] == ts[k]);
            }
            assert forall|k: int| 0 <= k < b.len() implies #[trigger] token_wf(b[k]) by {
                assert(b[k] == ts[k + 8]);
            }
            lemma_items_len(a);
            lemma_serialize_len(b);
        }
    }
}

proof fn lemma_match_run_le(w: Seq<u8>, h: int, input: Seq<u8>, i: int, p: int, lim: int)
    ensures
        match_run(w, h, input, i, p, lim) <= (if p < lim { lim } else { p }) - h,
    decreases lim - p,
{
    if p < lim && w[p % (SLIDE_N as int)] == input[i + (p - h)] {
        lemma_match_run_le(w, h, input, i, p + 1, lim);
    }
}

/// The compressor's back-references stay within the input and are well formed.
proof fn lemma_best_match_len(w: Seq<u8>, s: int, rec: Seq<nat>, input: Seq<u8>, i: int, pos: int, len: int)
    requires
        best_match(w, s, rec, input, i, pos, len),
        0 <= s < SLIDE_N,
        0 <= i,
    ensures
        i + len < input.len(),
        token_wf(Token::Backref(pos as u16, len as u16)),
        len as u16 == len,
{
    let curlen = input.len() - i - 1;
    let big = (if SLIDE_M < curlen { SLIDE_M as int } else { curlen }) + pos;
    let lim = match_limit(s, pos, big);
    lemma_match_run_le(w, pos, input, i, pos + 2, lim);
}

/// The compressor's items for the input from `i` on are well formed, stand
/// for exactly that input, and are no more than its bytes.
proof fn lemma_lz_tokens_cover(w: Seq<u8>, s: int, rank: Seq<nat>, clock: nat, input: Seq<u8>, i: int)
    requires
        0 <= s < SLIDE_N,
        0 <= i <= input.len(),
    ensures
        tokens_wf(lz_tokens(w, s, rank, clock, input, i)),
        covered(lz_tokens(w, s, rank, clock, input, i)) == input.len() - i,
        lz_tokens(w, s, rank, clock, input, i).len() <= input.len() - i,
    decreases input.len() - i,
{
    if i < input.len() {
        let (wi, si) = write_all(w, s, input.take(i));
        let ri = relinked(rank, w, s, clock, input.take(i));
        lemma_write_pos_range(w, s, input.take(i));
        let ts = lz_tokens(w, s, rank, clock, input, i);
        if exists|pl: (int, int)| best_match(wi, si, ri, input, i, pl.0, pl.1) {
            let pl = choose|pl: (int, int)| best_match(wi, si, ri, input, i, pl.0, pl.1);
            lemma_best_match_len(wi, si, ri, input, i, pl.0, pl.1);
            lemma_lz_tokens_cover(w, s, rank, clock, input, i + pl.1);
            let t = seq![Token::Backref(pl.0 as u16, pl.1 as u16)];
            let rest = lz_tokens(w, s, rank, clock, input, i + pl.1);
            assert(ts == t + rest);
            lemma_covered_add(t, rest);
            assert(t.drop_last() =~= Seq::<Token>::empty());
            assert(covered(t.drop_last()) == 0);
            assert(covered(t) == pl.1);
            assert forall|k: int| 0 <= k < ts.len() implies #[trigger] token_wf(ts[k]) by {
                if k > 0 {
                    assert(ts[k] == rest[k - 1]);
                }
            }
        } else {
            lemma_lz_tokens_cover(w, s, rank, clock, input, i + 1);
            let t = seq![Token::Literal(input[i])];
            let rest = lz_tokens(w, s, rank, clock, input, i + 1);
            assert(ts == t + rest);
            lemma_covered_add(t, rest);
            assert(t.drop_last() =~= Seq::<Token>::empty());
            assert(covered(t.drop_last()) == 0);
            assert(covered(t) == 1);
            assert forall|k: int| 0 <= k < ts.len() implies #[trigger] token_wf(ts[k]) by {
                if k > 0 {
                    assert(ts[k] == rest[k - 1]);
                }
            }
        }
    } else {
        assert(covered(lz_tokens(w, s, rank, clock, input, i)) == 0);
    }
}

proof fn lemma_write_pos_range(w: Seq<u8>, s: int, bytes: Seq<u8>)
    requires
        0 <= s < SLIDE_N,
    ensures
        0 <= write_all(w, s, bytes).1 < SLIDE_N,
    decreases bytes.len(),
{
    if bytes.len() > 0 {
        lemma_write_pos_range(w, s, bytes.drop_last());
    }
}

/// The compressed form of `input` is at most one byte per input byte plus
/// one flag byte per eight items.
pub proof fn lemma_lz_output_len(w: Seq<u8>, s: int, rank: Seq<nat>, clock: nat, input: Seq<u8>)
    requires
        0 <= s < SLIDE_N,
    ensures
        serialize(lz_tokens(w, s, rank, clock, input, 0)).len() <= input.len() + (input.len() + 7) / 8,
{
    lemma_lz_tokens_cover(w, s, rank, clock, input, 0);
    lemma_serialize_len(lz_tokens(w, s, rank, clock, input, 0));
}

/// The link times of a fresh compressor: it links the positions from the
/// last to the first.
pub open spec fn initial_recency() -> Seq<nat> {
    Seq::new(SLIDE_N as nat, |p: int| (SLIDE_N - 1 - p) as nat)
}

/// Where no match is long enough, the compressor takes no back-reference.
proof fn lemma_no_best(w: Seq<u8>, s: int, rank: Seq<nat>, input: Seq<u8>, i: int)
    requires
        no_match(w, s, input, i),
        0 <= s < SLIDE_N,
    ensures
        !exists|pl: (int, int)| best_match(w, s, rank, input, i, pl.0, pl.1),
{
    if exists|pl: (int, int)| best_match(w, s, rank, input, i, pl.0, pl.1) {
        let pl = choose|pl: (int, int)| best_match(w, s, rank, input, i, pl.0, pl.1);
        let h = pl.0;
        if input.len() - i < 3 && !(h == s || (h + 1) % (SLIDE_N as int) == s) {
            let curlen = input.len() - i - 1;
            let big = (if SLIDE_M < curlen { SLIDE_M as int } else { curlen }) + h;
            assert(match_limit(s, h, big) <= big);
        }
    }
}

/// A back-reference of `len` bytes at `pos`, for the input from `i` on, with
/// write position `s`: the bytes match, and copying them byte by byte never
/// reads a byte it has already overwritten.
pub open spec fn valid_match(w: Seq<u8>, s: int, pos: int, len: int, input: Seq<u8>, i: int) -> bool {
    &&& 0 <= pos < SLIDE_N
    &&& 3 <= len <= SLIDE_M
    &&& i + len < input.len()
    &&& forall|k: int| 0 <= k < len ==> #[trigger] w[(pos + k) % (SLIDE_N as int)] == input[i + k]
    &&& forall|j: int, k: int| 0 <= j < k < len ==> #[trigger] no_clash(s, pos, j, k)
}

/// The `j`-th write from `s` does not land where the `k`-th read from `pos` reads.
pub open spec fn no_clash(s: int, pos: int, j: int, k: int) -> bool {
    (s + j) % (SLIDE_N as int) != (pos + k) % (SLIDE_N as int)
}

proof fn lemma_mod_small(x: int)
    requires
        0 <= x < 2 * SLIDE_N,
    ensures
        x % (SLIDE_N as int) == (if x < SLIDE_N { x } else { x - SLIDE_N }),
{
}

/// Reading the window through the mirror region.
proof fn lemma_mirror_window(text: Seq<u8>, po: int, len: int)
    requires
        mirrored(text),
        0 <= po < SLIDE_N,
        po + len <= TEXT_LEN,
    ensures
        forall|k: int| 0 <= k < len ==> #[trigger] text.subrange(0, SLIDE_N as int)[(po + k) % (SLIDE_N as int)] == text[po + k],
{
    assert forall|k: int| 0 <= k < len implies #[trigger] text.subrange(0, SLIDE_N as int)[(po + k) % (SLIDE_N as int)] == text[po + k] by {
        lemma_mod_small(po + k);
        if po + k >= SLIDE_N {
            assert(text[SLIDE_N + (po + k - SLIDE_N)] == text[po + k - SLIDE_N]);
        }
    }
}

/// The end bound of the match finder keeps reads ahead of writes.
proof fn lemma_no_overlap(s: int, po: int, big: int, lim: int, len: int)
    requires
        0 <= s < SLIDE_N,
        0 <= po < SLIDE_N,
        s != po,
        big <= po + SLIDE_M,
        lim == match_limit(s, po, big),
        3 <= len <= lim - po,
    ensures
        forall|j: int, k: int| 0 <= j < k < len ==> #[trigger] no_clash(s, po, j, k),
{
    assert forall|j: int, k: int| 0 <= j < k < len implies #[trigger] no_clash(s, po, j, k) by {
        lemma_mod_small(s + j);
        lemma_mod_small(po + k);
    }
}

proof fn lemma_mask_ne_one(j: int)
    requires
        0 < j < 8,
    ensures
        mask_at(j) != 1u8,
{
    let b = j as u8;
    assert(0 < b < 8 ==> (1u8 << b) != 1u8) by (bit_vector);
}

/// The write position after copying `k` bytes, and the copy's length.
proof fn lemma_copy_run_pos(w: Seq<u8>, s: int, pos: int, k: nat)
    requires
        w.len() == SLIDE_N,
        0 <= s < SLIDE_N,
    ensures
        copy_run(w, s, pos, k).2 == (s + k) % (SLIDE_N as int),
        copy_run(w, s, pos, k).1.len() == SLIDE_N,
        copy_run(w, s, pos, k).0.len() == k,
    decreases k,
{
    if k > 0 {
        lemma_copy_run_pos(w, s, pos, (k - 1) as nat);
    }
}

/// The lists are ordered by when their positions were linked: every linked
/// position was linked before `clock`, at a time of its own; a list starts
/// at its latest position; and between a position and the next in its list
/// no position with the same key was linked.
#[verifier::opaque]
spec fn order_ok(text: Seq<u8>, map: Seq<i32>, chains: Seq<Chain>, rank: Seq<nat>, d: Set<int>, clock: nat) -> bool {
    &&& forall|p: int| 0 <= p < SLIDE_N && !d.contains(p) ==> #[trigger] rank[p] < clock
    &&& forall|p: int, q: int|
        0 <= p < SLIDE_N && 0 <= q < SLIDE_N && !d.contains(p) && !d.contains(q) && p != q ==> #[trigger] rank[p]
            != #[trigger] rank[q]
    &&& forall|q: int|
        0 <= q < SLIDE_N && !d.contains(q) ==> map[#[trigger] key_at(text, q)] != -1 && rank[q] <= rank[map[key_at(
            text,
            q,
        )] as int]
    &&& forall|p: int, q: int|
        #![trigger chains[p], rank[q]]
        0 <= p < SLIDE_N && 0 <= q < SLIDE_N && !d.contains(p) && !d.contains(q) && key_at(text, q) == key_at(text, p)
            && rank[q] < rank[p] ==> chains[p].next != -1 && rank[q] <= rank[chains[p].next as int]
    &&& forall|p: int|
        0 <= p < SLIDE_N && !d.contains(p) && #[trigger] chains[p].prev == -1 ==> map[key_at(text, p)] == p
}

/// Changing the text at detached positions keeps the order of the lists.
proof fn lemma_order_text_change(
    text0: Seq<u8>,
    text1: Seq<u8>,
    map: Seq<i32>,
    chains: Seq<Chain>,
    rank: Seq<nat>,
    d: Set<int>,
    clock: nat,
)
    requires
        order_ok(text0, map, chains, rank, d, clock),
        forall|p: int| 0 <= p < SLIDE_N && !d.contains(p) ==> key_at(text1, p) == key_at(text0, p),
    ensures
        order_ok(text1, map, chains, rank, d, clock),
{
    reveal(order_ok);
    assert forall|q: int| 0 <= q < SLIDE_N && !d.contains(q) implies map[#[trigger] key_at(text1, q)] != -1 && rank[q] <= rank[map[key_at(
        text1,
        q,
    )] as int] by {
        assert(key_at(text1, q) == key_at(text0, q));
    }
    assert forall|p: int, q: int|
        #![trigger chains[p], rank[q]]
        0 <= p < SLIDE_N && 0 <= q < SLIDE_N && !d.contains(p) && !d.contains(q) && key_at(text1, q) == key_at(text1, p)
            && rank[q] < rank[p] implies chains[p].next != -1 && rank[q] <= rank[chains[p].next as int] by {
        assert(key_at(text1, q) == key_at(text0, q));
        assert(key_at(text1, p) == key_at(text0, p));
    }
}

/// Linking a detached position as the new head of its list, at the
/// current time, keeps the order of the lists.
proof fn lemma_order_add(
    text: Seq<u8>,
    map0: Seq<i32>,
    ch0: Seq<Chain>,
    rank0: Seq<nat>,
    d: Set<int>,
    clock0: nat,
    ix: int,
    key: int,
    head: int,
    mp: Seq<i32>,
    ch: Seq<Chain>,
    rk: Seq<nat>,
)
    requires
        0 <= ix < SLIDE_N,
        d.contains(ix),
        key == key_at(text, ix),
        0 <= key < KEY_COUNT,
        head == map0[key],
        map0.len() == KEY_COUNT,
        ch0.len() == SLIDE_N,
        rank0.len() == SLIDE_N,
        links_ok(text, map0, ch0, rank0, d),
        order_ok(text, map0, ch0, rank0, d, clock0),
        mp == map0.update(key, ix as i32),
        rk == rank0.update(ix, clock0),
        head == -1 ==> ch == ch0,
        head != -1 ==> ch == ch0.update(head, Chain { prev: ix as i32, next: ch0[head].next }).update(ix, Chain { prev: -1i32, next: head as i32 }),
    ensures
        order_ok(text, mp, ch, rk, d.remove(ix), clock0 + 1),
{
    reveal(order_ok);
    let d2 = d.remove(ix);
    assert forall|p: int| 0 <= p < SLIDE_N && !d2.contains(p) implies #[trigger] rk[p] < clock0 + 1 by {
        if p != ix {
            assert(!d.contains(p));
        }
    }
    assert forall|p: int, q: int|
        0 <= p < SLIDE_N && 0 <= q < SLIDE_N && !d2.contains(p) && !d2.contains(q) && p != q implies #[trigger] rk[p]
            != #[trigger] rk[q] by {
        if p != ix && q != ix {
            assert(rank0[p] != rank0[q]);
        } else if p == ix {
            assert(rank0[q] < clock0);
        } else {
            assert(rank0[p] < clock0);
        }
    }
    assert forall|q: int| 0 <= q < SLIDE_N && !d2.contains(q) implies mp[#[trigger] key_at(text, q)] != -1 && rk[q]
        <= rk[mp[key_at(text, q)] as int] by {
        if q != ix {
            let kq = key_at(text, q);
            assert(!d.contains(q));
            assert(map0[kq] != -1 && rank0[q] <= rank0[map0[kq] as int]);
            if kq != key {
                assert(mp[kq] == map0[kq]);
                let h = map0[kq] as int;
                assert(h != ix);
            }
        }
    }
    assert forall|p: int, q: int|
        #![trigger ch[p], rk[q]]
        0 <= p < SLIDE_N && 0 <= q < SLIDE_N && !d2.contains(p) && !d2.contains(q) && key_at(text, q) == key_at(text, p)
            && rk[q] < rk[p] implies ch[p].next != -1 && rk[q] <= rk[ch[p].next as int] by {
        if p == ix {
            assert(q != ix);
            assert(!d.contains(q));
            assert(map0[key] != -1);
            assert(rank0[q] <= rank0[head]);
            assert(ch[p].next == head);
            assert(head != ix);
        } else {
            assert(!d.contains(p));
            assert(q != ix) by {
                if q == ix {
                    assert(rank0[p] < clock0);
                }
            }
            assert(!d.contains(q));
            assert(rank0[q] < rank0[p]);
            assert(ch[p].next == ch0[p].next);
            let nx = ch0[p].next;
            assert(nx != -1 && rank0[q] <= rank0[nx as int]);
            assert(nx as int != ix);
        }
    }
}

/// Unlinking a linked position keeps the order of the lists.
#[verifier::spinoff_prover]
proof fn lemma_order_delete(
    text: Seq<u8>,
    map0: Seq<i32>,
    ch0: Seq<Chain>,
    rank: Seq<nat>,
    d: Set<int>,
    clock: nat,
    ix: int,
    mp: Seq<i32>,
    ch: Seq<Chain>,
)
    requires
        0 <= ix < SLIDE_N,
        !d.contains(ix),
        ch0.len() == SLIDE_N,
        ch.len() == SLIDE_N,
        map0.len() == KEY_COUNT,
        rank.len() == SLIDE_N,
        order_ok(text, map0, ch0, rank, d, clock),
        ch0[ix].prev != -1 ==> 0 <= ch0[ix].prev < SLIDE_N && ch0[ch0[ix].prev as int].next == ix && key_at(
            text,
            ch0[ix].prev as int,
        ) == key_at(text, ix) && !d.contains(ch0[ix].prev as int),
        ch0[ix].next != -1 ==> 0 <= ch0[ix].next < SLIDE_N && ch[ch0[ix].next as int].prev == ch0[ix].prev && key_at(
            text,
            ch0[ix].next as int,
        ) == key_at(text, ix) && !d.contains(ch0[ix].next as int),
        forall|x: int| 0 <= x < SLIDE_N && !d.contains(x) && #[trigger] ch0[x].next == ix ==> ch0[ix].prev == x,
        ch0[ix].prev != -1 ==> ch[ch0[ix].prev as int].next == ch0[ix].next && mp == map0,
        ch0[ix].prev == -1 ==> mp == map0.update(key_at(text, ix), ch0[ix].next),
        forall|p: int| 0 <= p < SLIDE_N && p != ix && p != ch0[ix].prev ==> #[trigger] ch[p].next == ch0[p].next,
        forall|p: int| 0 <= p < SLIDE_N && p != ix && p != ch0[ix].next ==> #[trigger] ch[p].prev == ch0[p].prev,
    ensures
        order_ok(text, mp, ch, rank, d.insert(ix), clock),
{
    reveal(order_ok);
    let d2 = d.insert(ix);
    let ki = key_at(text, ix);
    let nx = ch0[ix].next;
    let pv = ch0[ix].prev;
    assert forall|q: int| 0 <= q < SLIDE_N && !d2.contains(q) implies mp[#[trigger] key_at(text, q)] != -1 && rank[q]
        <= rank[mp[key_at(text, q)] as int] by {
        let kq = key_at(text, q);
        assert(map0[kq] != -1 && rank[q] <= rank[map0[kq] as int]);
        if kq == ki && pv == -1 {
            assert(map0[ki] as int == ix);
            assert(rank[q] != rank[ix]);
            assert(ch0[ix].next != -1 && rank[q] <= rank[ch0[ix].next as int]);
        }
    }
    assert forall|p: int, q: int|
        #![trigger ch[p], rank[q]]
        0 <= p < SLIDE_N && 0 <= q < SLIDE_N && !d2.contains(p) && !d2.contains(q) && key_at(text, q) == key_at(text, p)
            && rank[q] < rank[p] implies ch[p].next != -1 && rank[q] <= rank[ch[p].next as int] by {
        assert(ch0[p].next != -1 && rank[q] <= rank[ch0[p].next as int]);
        if p == pv {
            assert(rank[q] != rank[ix]);
            assert(ch0[ix].next != -1 && rank[q] <= rank[ch0[ix].next as int]);
        } else {
            assert(ch[p].next == ch0[p].next);
            if ch0[p].next as int == ix {
                assert(ch0[ix].prev == p);
            }
        }
    }
    assert forall|p: int| 0 <= p < SLIDE_N && !d2.contains(p) && #[trigger] ch[p].prev == -1 implies mp[key_at(text, p)] == p by {
        if p == nx {
            assert(ch[p].prev == pv);
            assert(pv == -1);
        } else {
            assert(ch[p].prev == ch0[p].prev);
            assert(map0[key_at(text, p)] == p);
            if key_at(text, p) == ki && pv == -1 {
                assert(map0[ki] == ix);
            }
        }
    }
}

/// A match run ends between where it starts and its bound.
proof fn lemma_match_run_bounds(w: Seq<u8>, h: int, input: Seq<u8>, i: int, p: int, lim: int)
    ensures
        match_run(w, h, input, i, p, lim) >= p - h,
        p <= lim ==> match_run(w, h, input, i, p, lim) <= lim - h,
    decreases lim - p,
{
    if p < lim && w[p % (SLIDE_N as int)] == input[i + (p - h)] {
        lemma_match_run_bounds(w, h, input, i, p + 1, lim);
    }
}

/// The list of a key starts at its latest position, and a key without a
/// list has no position.
proof fn lemma_chain_head(text: Seq<u8>, map: Seq<i32>, chains: Seq<Chain>, rank: Seq<nat>, clock: nat)
    requires
        order_ok(text, map, chains, rank, Set::empty(), clock),
    ensures
        forall|q: int| 0 <= q < SLIDE_N ==> map[#[trigger] key_at(text, q)] != -1 && rank[q] <= rank[map[key_at(text, q)] as int],
{
    reveal(order_ok);
}

/// Walking from a position to the next in its list passes no other
/// position of the list.
proof fn lemma_chain_step(text: Seq<u8>, map: Seq<i32>, chains: Seq<Chain>, rank: Seq<nat>, clock: nat, h: int)
    requires
        links_ok(text, map, chains, rank, Set::empty()),
        order_ok(text, map, chains, rank, Set::empty(), clock),
        0 <= h < SLIDE_N,
    ensures
        chains[h].next != -1 ==> 0 <= chains[h].next < SLIDE_N && key_at(text, chains[h].next as int) == key_at(text, h)
            && rank[chains[h].next as int] < rank[h],
        forall|q: int|
            0 <= q < SLIDE_N && #[trigger] key_at(text, q) == key_at(text, h) && (chains[h].next == -1 || rank[q] > rank[
                chains[h].next as int
            ]) ==> q == h || rank[q] > rank[h],
{
    reveal(order_ok);
    assert(chains[h] == chains[h]);
    assert forall|q: int|
        0 <= q < SLIDE_N && #[trigger] key_at(text, q) == key_at(text, h) && (chains[h].next == -1 || rank[q] > rank[
            chains[h].next as int
        ]) implies q == h || rank[q] > rank[h] by {
        if q != h && rank[q] <= rank[h] {
            assert(rank[q] != rank[h]);
            assert(chains[h].next != -1 && rank[q] <= rank[chains[h].next as int]);
        }
    }
}

/// Changing the text at detached positions keeps the chains consistent.
proof fn lemma_links_text_change(
    text0: Seq<u8>,
    text1: Seq<u8>,
    map: Seq<i32>,
    chains: Seq<Chain>,
    rank: Seq<nat>,
    d: Set<int>,
)
    requires
        links_ok(text0, map, chains, rank, d),
        text1.len() == text0.len(),
        forall|p: int| 0 <= p < SLIDE_N && !d.contains(p) ==> key_at(text1, p) == key_at(text0, p),
    ensures
        links_ok(text1, map, chains, rank, d),
{
    assert forall|k: int| 0 <= k < KEY_COUNT implies {
        let h = #[trigger] map[k] as int;
        h == -1 || (0 <= h < SLIDE_N && !d.contains(h) && key_at(text1, h) == k && chains[h].prev
            == -1)
    } by {
        let h = map[k] as int;
        if h != -1 {
            assert(key_at(text0, h) == k);
        }
    }
    assert forall|p: int| 0 <= p < SLIDE_N && !d.contains(p) implies {
        let c = #[trigger] chains[p];
        &&& (c.next == -1 || (0 <= c.next < SLIDE_N && !d.contains(c.next as int) && key_at(
            text1,
            c.next as int,
        ) == key_at(text1, p) && chains[c.next as int].prev == p && rank[c.next as int] < rank[p]))
        &&& (c.prev != -1 ==> 0 <= c.prev < SLIDE_N && !d.contains(c.prev as int) && key_at(
            text1,
            c.prev as int,
        ) == key_at(text1, p) && chains[c.prev as int].next == p)
    } by {
        let c = chains[p];
        if c.next != -1 {
            assert(key_at(text1, c.next as int) == key_at(text0, c.next as int));
        }
        if c.prev != -1 {
            assert(key_at(text1, c.prev as int) == key_at(text0, c.prev as int));
        }
    }
}

impl SlideCompressor {
    /// The current window contents.
    pub closed spec fn window(&self) -> Seq<u8> {
        self.text@.subrange(0, SLIDE_N as int)
    }

    /// The current write position.
    pub closed spec fn write_pos(&self) -> int {
        self.s as int
    }

    /// When each window position was last linked into the lists.
    pub closed spec fn recency(&self) -> Seq<nat> {
        self.rank@
    }

    /// The number of links made so far.
    pub closed spec fn time(&self) -> nat {
        self.clock@
    }

    /// Everything the next output depends on: window, write position, link
    /// times and time.
    pub open spec fn lz_state(&self) -> ((Seq<u8>, int), (Seq<nat>, nat)) {
        ((self.window(), self.write_pos()), (self.recency(), self.time()))
    }

    /// The saved link times.
    pub closed spec fn saved_recency(&self) -> Seq<nat> {
        self.backup_rank@
    }

    /// The saved number of links.
    pub closed spec fn saved_time(&self) -> nat {
        self.backup_clock@
    }

    /// The saved window contents.
    pub closed spec fn saved_window(&self) -> Seq<u8> {
        self.backup_text@.subrange(0, SLIDE_N as int)
    }

    /// The saved write position.
    pub closed spec fn saved_write_pos(&self) -> int {
        self.backup_s as int
    }

    spec fn state_ok(&self, d: Set<int>) -> bool {
        &&& mirrored(self.text@)
        &&& self.s < SLIDE_N
        &&& links_ok(self.text@, self.map@, self.chains@, self.rank@, d)
        &&& order_ok(self.text@, self.map@, self.chains@, self.rank@, d, self.clock@)
    }

    spec fn saved_ok(&self) -> bool {
        &&& mirrored(self.backup_text@)
        &&& self.backup_s < SLIDE_N
        &&& links_ok(
            self.backup_text@,
            self.backup_map@,
            self.backup_chains@,
            self.backup_rank@,
            self.backup_detached@,
        )
        &&& order_ok(
            self.backup_text@,
            self.backup_map@,
            self.backup_chains@,
            self.backup_rank@,
            self.backup_detached@,
            self.backup_clock@,
        )
    }

    /// The saved state of `self` is that of `other`.
    pub closed spec fn same_saved(&self, other: &Self) -> bool {
        &&& self.backup_text@ == other.backup_text@
        &&& self.backup_s == other.backup_s
        &&& self.backup_map@ == other.backup_map@
        &&& self.backup_chains@ == other.backup_chains@
        &&& self.backup_rank@ == other.backup_rank@
        &&& self.backup_clock@ == other.backup_clock@
        &&& self.backup_detached@ == other.backup_detached@
    }

    /// The live state of `self` is that of `other`.
    pub closed spec fn same_live(&self, other: &Self) -> bool {
        &&& self.text@ == other.text@
        &&& self.s == other.s
        &&& self.map@ == other.map@
        &&& self.chains@ == other.chains@
        &&& self.rank@ == other.rank@
        &&& self.clock@ == other.clock@
        &&& self.detached@ == other.detached@
    }

    /// The compressor's internal invariant.
    pub closed spec fn wf(&self) -> bool {
        &&& self.state_ok(self.detached@)
        &&& self.saved_ok()
        &&& self.detached@ == Set::<int>::empty()
        &&& self.backup_detached@ == Set::<int>::empty()
    }

    /// At most one back-reference is the one the compressor takes: the link
    /// times of the positions differ.
    proof fn lemma_best_unique(&self, input: Seq<u8>, i: int, pos: int, len: int)
        requires
            self.wf(),
            best_match(self.window(), self.s as int, self.rank@, input, i, pos, len),
        ensures
            forall|pl: (int, int)| #[trigger] best_match(self.window(), self.s as int, self.rank@, input, i, pl.0, pl.1) ==> pl == (pos, len),
    {
        reveal(order_ok);
        assert forall|pl: (int, int)| #[trigger] best_match(self.window(), self.s as int, self.rank@, input, i, pl.0, pl.1) implies pl == (
            pos,
            len,
        ) by {
            let w = self.window();
            let s = self.s as int;
            assert(key_matches(w, pl.0, input, i));
            assert(key_matches(w, pos, input, i));
            assert(match_at(w, s, pl.0, input, i) <= len);
            assert(match_at(w, s, pos, input, i) <= pl.1);
            assert(self.rank@[pl.0] <= self.rank@[pos]);
            assert(self.rank@[pos] <= self.rank@[pl.0]);
            if pl.0 != pos {
                assert(self.rank@[pl.0] != self.rank@[pos]);
            }
        }
    }

    /// No match is longer than the longest back-reference.
    proof fn lemma_match_at_bound(&self, q: int, input: Seq<u8>, i: int)
        requires
            self.wf(),
            i + 2 < input.len(),
            0 <= q < SLIDE_N,
        ensures
            match_at(self.window(), self.s as int, q, input, i) <= SLIDE_M,
    {
        let s = self.s as int;
        if !(q == s || (q + 1) % (SLIDE_N as int) == s) {
            let curlen = input.len() - i - 1;
            let big = (if SLIDE_M < curlen { SLIDE_M as int } else { curlen }) + q;
            let lim = match_limit(s, q, big);
            lemma_match_run_bounds(self.window(), q, input, i, q + 2, lim);
        }
    }

    /// The key of a window position reads the same in the text and in the
    /// window.
    proof fn lemma_keys(&self)
        requires
            self.wf(),
        ensures
            forall|q: int| 0 <= q < SLIDE_N ==> #[trigger] key_at(self.text@, q) == key_at(self.window(), q),
    {
        assert forall|q: int| 0 <= q < SLIDE_N implies #[trigger] key_at(self.text@, q) == key_at(self.window(), q) by {
            let r = (q + 1) % (SLIDE_N as int);
            assert(self.window()[q] == self.text@[q]);
            assert(self.window()[r] == self.text@[r]);
        }
    }

    pub proof fn lemma_window_len(&self)
        requires
            self.wf(),
        ensures
            self.window().len() == SLIDE_N,
            0 <= self.write_pos() < SLIDE_N,
            self.saved_window().len() == SLIDE_N,
            0 <= self.saved_write_pos() < SLIDE_N,
    {
    }

    /// Links position `index` into the list of its key, as the new head.
    fn add_map(&mut self, index: usize, Ghost(d): Ghost<Set<int>>)
        requires
            index < SLIDE_N,
            d.contains(index as int),
            old(self).state_ok(d),
        ensures
            final(self).state_ok(d.remove(index as int)),
            final(self).text@ == old(self).text@,
            final(self).s == old(self).s,
            final(self).same_saved(old(self)),
            final(self).detached == old(self).detached,
            final(self).rank@ == old(self).rank@.update(index as int, old(self).clock@),
            final(self).clock@ == old(self).clock@ + 1,
    {
        let ghost text = self.text@;
        let ghost d2 = d.remove(index as int);
        let ghost clock0 = self.clock@;
        let ghost rank0 = self.rank@;
        let nxt = wrap(index + 1);
        let key = key_of(self.text[index], self.text[nxt]);
        assert(key == key_at(text, index as int));
        let head = self.map[key];
        if head == -1 {
            self.map.set(key, index as i32);
            proof {
                self.rank@ = self.rank@.update(index as int, clock0);
                assert forall|k: int| 0 <= k < KEY_COUNT implies {
                    let h = #[trigger] self.map@[k] as int;
                    h == -1 || (0 <= h < SLIDE_N && !d2.contains(h) && key_at(text, h) == k
                        && self.chains@[h].prev == -1)
                } by {
                    if k != key {
                        assert(self.map@[k] == old(self).map@[k]);
                    }
                }
            }
        } else {
            let old_head = head as usize;
            self.map.set(key, index as i32);
            let mut c_old = self.chains[old_head];
            c_old.prev = index as i32;
            self.chains.set(old_head, c_old);
            let c_new = Chain { prev: -1, next: old_head as i32 };
            self.chains.set(index, c_new);
            proof {
                assert(rank0[old_head as int] < clock0) by {
                    reveal(order_ok);
                }
                self.rank@ = self.rank@.update(index as int, clock0);
                assert(old(self).chains@[old_head as int].prev == -1);
                assert forall|k: int| 0 <= k < KEY_COUNT implies {
                    let h = #[trigger] self.map@[k] as int;
                    h == -1 || (0 <= h < SLIDE_N && !d2.contains(h) && key_at(text, h) == k
                        && self.chains@[h].prev == -1)
                } by {
                    if k != key {
                        assert(self.map@[k] == old(self).map@[k]);
                        let h = self.map@[k] as int;
                        if h != -1 {
                            assert(h != old_head);
                            assert(h != index);
                        }
                    }
                }
                assert forall|p: int|
                    0 <= p < SLIDE_N && !d2.contains(p) implies {
                    let c = #[trigger] self.chains@[p];
                    &&& (c.next == -1 || (0 <= c.next < SLIDE_N && !d2.contains(c.next as int)
                        && key_at(text, c.next as int) == key_at(text, p)
                        && self.chains@[c.next as int].prev == p && self.rank@[c.next as int]
                        < self.rank@[p]))
                    &&& (c.prev != -1 ==> 0 <= c.prev < SLIDE_N && !d2.contains(c.prev as int)
                        && key_at(text, c.prev as int) == key_at(text, p)
                        && self.chains@[c.prev as int].next == p)
                } by {
                    if p != index && p != old_head {
                        assert(!d.contains(p));
                        let c = old(self).chains@[p];
                        assert(self.chains@[p] == c);
                        if c.next != -1 {
                            assert(c.next != old_head);
                            assert(c.next != index);
                        }
                        if c.prev != -1 {
                            assert(c.prev != index);
                        }
                    } else if p == old_head {
                        let c = old(self).chains@[p];
                        if c.next != -1 {
                            assert(c.next != old_head);
                            assert(c.next != index);
                        }
                    }
                }
            }
        }
        self.clock = Ghost(clock0 + 1);
        proof {
            lemma_order_add(text, old(self).map@, old(self).chains@, rank0, d, clock0, index as int, key as int, head as int, self.map@,
                self.chains@, self.rank@);
        }
    }

    /// Unlinks position `index` from the list of its key.
    fn delete_map(&mut self, index: usize, Ghost(d): Ghost<Set<int>>)
        requires
            index < SLIDE_N,
            !d.contains(index as int),
            old(self).state_ok(d),
        ensures
            final(self).state_ok(d.insert(index as int)),
            final(self).text@ == old(self).text@,
            final(self).s == old(self).s,
            final(self).rank@ == old(self).rank@,
            final(self).clock@ == old(self).clock@,
            final(self).same_saved(old(self)),
            final(self).detached == old(self).detached,
    {
        let ghost text = self.text@;
        let ghost d2 = d.insert(index as int);
        let ghost ch0 = self.chains@;
        let ghost map0 = self.map@;
        let next = self.chains[index].next;
        if next != -1 {
            let mut cn = self.chains[next as usize];
            cn.prev = self.chains[index].prev;
            self.chains.set(next as usize, cn);
        }
        let prev = self.chains[index].prev;
        if prev != -1 {
            let mut cp = self.chains[prev as usize];
            cp.next = self.chains[index].next;
            self.chains.set(prev as usize, cp);
        } else {
            let nxt = wrap(index + 1);
            let key = key_of(self.text[index], self.text[nxt]);
            assert(key == key_at(text, index as int));
            if next != -1 {
                self.map.set(key, next);
            } else {
                self.map.set(key, -1);
            }
        }
        self.chains.set(index, Chain { prev: -1, next: -1 });
        proof {
            lemma_order_delete(text, map0, ch0, self.rank@, d, self.clock@, index as int, self.map@, self.chains@);
        }
        proof {
            let ki = key_at(text, index as int);
            assert(prev == ch0[index as int].prev);
            assert(next == ch0[index as int].next);
            assert(prev != -1 ==> prev != index && next != prev);
            assert(next != -1 ==> next != index);
            assert forall|k: int| 0 <= k < KEY_COUNT implies {
                let h = #[trigger] self.map@[k] as int;
                h == -1 || (0 <= h < SLIDE_N && !d2.contains(h) && key_at(text, h) == k
                    && self.chains@[h].prev == -1)
            } by {
                let h0 = map0[k] as int;
                if h0 != -1 && !(prev == -1 && k == ki) {
                    assert(self.map@[k] == map0[k]);
                    assert(h0 != index) by {
                        if h0 == index {
                            assert(key_at(text, h0) == k);
                        }
                    }
                    assert(h0 != next) by {
                        if h0 == next && next != -1 {
                            assert(ch0[next as int].prev == index);
                        }
                    }
                }
            }
            assert forall|p: int| 0 <= p < SLIDE_N && !d2.contains(p) implies {
                let c = #[trigger] self.chains@[p];
                &&& (c.next == -1 || (0 <= c.next < SLIDE_N && !d2.contains(c.next as int)
                    && key_at(text, c.next as int) == key_at(text, p)
                    && self.chains@[c.next as int].prev == p && self.rank@[c.next as int]
                    < self.rank@[p]))
                &&& (c.prev != -1 ==> 0 <= c.prev < SLIDE_N && !d2.contains(c.prev as int)
                    && key_at(text, c.prev as int) == key_at(text, p)
                    && self.chains@[c.prev as int].next == p)
            } by {
                let c0 = ch0[p];
                assert(!d.contains(p));
                assert(p != index);
                if c0.next != -1 {
                    assert(ch0[c0.next as int].prev == p);
                }
                if c0.prev != -1 {
                    assert(ch0[c0.prev as int].next == p);
                }
            }
            assert forall|p: int| 0 <= p < SLIDE_N && d2.contains(p) implies #[trigger]
                self.chains@[p].prev == -1 && self.chains@[p].next == -1 by {
                if p != index {
                    assert(d.contains(p));
                    assert(p != prev as int);
                    assert(p != next as int);
                }
            }
        }
    }

    /// A fresh compressor: an all-zero window, write position 0, every
    /// position linked under its key, the last position first.
    pub fn new() -> (c: Self)
        ensures
            c.wf(),
            c.window() == initial_window(),
            c.write_pos() == 0,
            c.saved_window() == initial_window(),
            c.saved_write_pos() == 0,
            c.recency() == initial_recency(),
            c.time() == SLIDE_N,
            c.saved_recency() == initial_recency(),
            c.saved_time() == SLIDE_N,
    {
        let text: Vec<u8> = vec![0u8; TEXT_LEN];
        let map: Vec<i32> = vec![-1i32; KEY_COUNT];
        let chains: Vec<Chain> = vec![Chain { prev: -1, next: -1 }; SLIDE_N];
        let ghost rank0 = Seq::new(SLIDE_N as nat, |i: int| 0nat);
        let ghost all = Set::new(|p: int| 0 <= p < SLIDE_N);
        let mut c = SlideCompressor {
            text,
            s: 0,
            map,
            chains,
            rank: Ghost(rank0),
            clock: Ghost(0),
            backup_text: vec![0u8; TEXT_LEN],
            backup_s: 0,
            backup_map: vec![-1i32; KEY_COUNT],
            backup_chains: vec![Chain { prev: -1, next: -1 }; SLIDE_N],
            backup_rank: Ghost(rank0),
            backup_clock: Ghost(0),
            detached: Ghost(all),
            backup_detached: Ghost(all),
        };
        proof {
            assert forall|j: int| 0 <= j < SLIDE_N implies #[trigger] c.chains@[j].prev == -1
                && c.chains@[j].next == -1 by {
                assert(cloned(Chain { prev: -1i32, next: -1i32 }, c.chains@[j]));
            }
            assert forall|j: int| 0 <= j < SLIDE_N implies #[trigger] c.backup_chains@[j].prev
                == -1 && c.backup_chains@[j].next == -1 by {
                assert(cloned(Chain { prev: -1i32, next: -1i32 }, c.backup_chains@[j]));
            }
            assert forall|k: int| 0 <= k < KEY_COUNT implies #[trigger] c.map@[k] == -1 by {
                assert(cloned(-1i32, c.map@[k]));
            }
            assert forall|k: int| 0 <= k < KEY_COUNT implies #[trigger] c.backup_map@[k] == -1 by {
                assert(cloned(-1i32, c.backup_map@[k]));
            }
            assert forall|j: int| 0 <= j < TEXT_LEN implies #[trigger] c.text@[j] == 0 by {
                assert(cloned(0u8, c.text@[j]));
            }
            assert forall|j: int| 0 <= j < TEXT_LEN implies #[trigger] c.backup_text@[j] == 0 by {
                assert(cloned(0u8, c.backup_text@[j]));
            }
            reveal(order_ok);
            assert(c.state_ok(all));
            assert(c.saved_ok());
        }
        let mut i: usize = SLIDE_N;
        while i > 0
            invariant
                i <= SLIDE_N,
                c.state_ok(Set::new(|p: int| 0 <= p < i)),
                c.saved_ok(),
                c.clock@ == SLIDE_N - i,
                c.rank@.len() == SLIDE_N,
                forall|p: int| i <= p < SLIDE_N ==> #[trigger] c.rank@[p] == SLIDE_N - 1 - p,
                forall|j: int| 0 <= j < TEXT_LEN ==> #[trigger] c.text@[j] == 0,
                forall|j: int| 0 <= j < TEXT_LEN ==> #[trigger] c.backup_text@[j] == 0,
                c.s == 0,
                c.backup_s == 0,
            decreases i,
        {
            i = i - 1;
            proof {
                assert(Set::new(|p: int| 0 <= p < i + 1).remove(i as int) =~= Set::new(
                    |p: int| 0 <= p < i,
                ));
            }
            c.add_map(i, Ghost(Set::new(|p: int| 0 <= p < i + 1)));
        }
        c.detached = Ghost(Set::empty());
        proof {
            assert(Set::new(|p: int| 0 <= p < 0) =~= Set::<int>::empty());
        }
        c.backup_text = c.text.clone();
        c.backup_map = c.map.clone();
        c.backup_chains = c.chains.clone();
        c.backup_rank = Ghost(c.rank@);
        c.backup_clock = Ghost(c.clock@);
        c.backup_detached = Ghost(Set::empty());
        proof {
            assert(c.rank@ =~= initial_recency());
            assert(c.backup_text@ =~= c.text@);
            assert(c.backup_map@ =~= c.map@);
            assert(c.backup_chains@ =~= c.chains@);
            assert(c.window() =~= initial_window());
            assert(c.saved_window() =~= initial_window());
        }
        c
    }

    /// Writes `c` at the write position, keeping the chains consistent.
    fn put_byte(&mut self, c: u8)
        requires
            old(self).wf(),
        ensures
            final(self).wf(),
            (final(self).window(), final(self).write_pos()) == put(
                old(self).window(),
                old(self).write_pos(),
                c,
            ),
            final(self).same_saved(old(self)),
            final(self).rank@ == old(self).rank@.update((old(self).write_pos() + SLIDE_N - 1) % (SLIDE_N as int), old(self).clock@).update(
                old(self).write_pos(),
                old(self).clock@ + 1,
            ),
            final(self).clock@ == old(self).clock@ + 2,
    {
        let s = self.s;
        let prev = wrap(s + SLIDE_N - 1);
        let ghost d0 = self.detached@;
        let ghost d1 = d0.insert(prev as int).insert(s as int);
        self.delete_map(prev, Ghost(d0));
        self.delete_map(s, Ghost(d0.insert(prev as int)));
        let ghost text0 = self.text@;
        if s < SLIDE_M - 1 {
            self.text.set(s + SLIDE_N, c);
        }
        self.text.set(s, c);
        proof {
            let text1 = self.text@;
            assert forall|p: int| 0 <= p < SLIDE_N && !d1.contains(p) implies key_at(text1, p)
                == key_at(text0, p) by {
                assert(p != s && p != prev);
                assert(text1[p] == text0[p]);
                let q = (p + 1) % (SLIDE_N as int);
                assert(q != s);
                assert(text1[q] == text0[q]);
            }
            lemma_links_text_change(text0, text1, self.map@, self.chains@, self.rank@, d1);
            lemma_order_text_change(text0, text1, self.map@, self.chains@, self.rank@, d1, self.clock@);
            assert forall|j: int| 0 <= j < SLIDE_M - 1 implies #[trigger] text1[SLIDE_N + j]
                == text1[j] by {
                assert(text0[SLIDE_N + j] == text0[j]);
            }
        }
        self.add_map(prev, Ghost(d1));
        proof {
            assert(d1.remove(prev as int).contains(s as int));
        }
        self.add_map(s, Ghost(d1.remove(prev as int)));
        self.s = wrap(s + 1);
        self.detached = Ghost(d1.remove(prev as int).remove(s as int));
        proof {
            assert(self.window() =~= old(self).window().update(s as int, c));
            assert(self.detached@ =~= Set::<int>::empty());
        }
    }

    /// Finds the longest earlier occurrence in the window of the bytes that
    /// start at `input[i]`, among the positions linked under their first two
    /// bytes.  A match never reaches bytes that copying it would overwrite.
    fn get_match(&self, input: &[u8], i: usize, s: usize) -> (r: Option<(usize, usize)>)
        requires
            self.wf(),
            i < input.len(),
            s == self.s,
        ensures
            r matches Some((pos, len)) ==> valid_match(self.window(), s as int, pos as int, len as int, input@, i as int),
            r matches Some((pos, len)) ==> best_match(self.window(), s as int, self.rank@, input@, i as int, pos as int, len as int),
            r is None ==> no_match(self.window(), s as int, input@, i as int),
    {
        let remaining_len = input.len() - i;
        if remaining_len < 3 {
            return None;
        }
        let key = key_of(input[i], input[i + 1]);
        let mut head = self.map[key];
        let ghost text = self.text@;
        let ghost w = self.window();
        let ghost rank = self.rank@;
        let ghost d = self.detached@;
        proof {
            self.lemma_keys();
            lemma_chain_head(text, self.map@, self.chains@, rank, self.clock@);
            assert(d == Set::<int>::empty());
            assert forall|q: int| #[trigger] key_matches(w, q, input@, i as int) implies key_at(text, q) == key && rank[q]
                <= rank[head as int] && head != -1 by {
                assert(key_at(text, q) == key_at(w, q));
            }
        }
        if head == -1 {
            return None;
        }
        let mut max_len: usize = 0;
        let mut pos: usize = 0;
        let curlen = remaining_len - 1;
        while head != -1
            invariant
                self.wf(),
                text == self.text@,
                w == self.window(),
                rank == self.rank@,
                d == self.detached@,
                s == self.s,
                i + 2 < input.len(),
                curlen == input.len() - i - 1,
                key == input[i as int] as int + 256 * input[i + 1] as int,
                head == -1 || (0 <= head < SLIDE_N && !d.contains(head as int) && key_at(text, head as int) == key),
                max_len <= SLIDE_M,
                max_len >= 3 ==> valid_match(w, s as int, pos as int, max_len as int, input@, i as int),
                forall|q: int|
                    #[trigger] key_matches(w, q, input@, i as int) && (head == -1 || rank[q] > rank[head as int]) ==> match_at(
                        w,
                        s as int,
                        q,
                        input@,
                        i as int,
                    ) <= max_len,
                max_len > 0 ==> key_matches(w, pos as int, input@, i as int) && match_at(w, s as int, pos as int, input@, i as int)
                    == max_len && (head == -1 || rank[pos as int] > rank[head as int]),
                forall|q: int|
                    #[trigger] key_matches(w, q, input@, i as int) && (head == -1 || rank[q] > rank[head as int]) && match_at(
                        w,
                        s as int,
                        q,
                        input@,
                        i as int,
                    ) == max_len && max_len > 0 ==> rank[q] <= rank[pos as int],
                max_len < SLIDE_M,
            decreases (if head == -1 { 0 } else { rank[head as int] + 1 }),
        {
            let place_org = head as usize;
            proof {
                assert(self.chains@[place_org as int] == self.chains@[place_org as int]);
            }
            proof {
                lemma_chain_step(text, self.map@, self.chains@, rank, self.clock@, place_org as int);
                self.lemma_keys();
            }
            if s == place_org || s == wrap(place_org + 1) {
                let ghost h0 = head;
                head = self.chains[place_org].next;
                proof {
                    assert(match_at(w, s as int, place_org as int, input@, i as int) == 0);
                    assert forall|q: int|
                        #[trigger] key_matches(w, q, input@, i as int) && (head == -1 || rank[q] > rank[head as int]) implies q
                        == place_org || rank[q] > rank[h0 as int] by {
                        assert(key_at(text, q) == key_at(w, q));
                    }
                }
                continue;
            }
            let mut place_idx = place_org + 2;
            let mut c_idx: usize = 2;
            let big = (if SLIDE_M < curlen { SLIDE_M } else { curlen }) + place_org;
            let mut lim = big;
            if lim >= SLIDE_N {
                if place_org <= s && s < SLIDE_N {
                    lim = s;
                } else if s < wrap(lim) {
                    lim = s + SLIDE_N;
                }
            } else if place_org <= s && s < lim {
                lim = s;
            }
            assert(lim == match_limit(s as int, place_org as int, big as int));
            proof {
                lemma_mirror_window(text, place_org as int, lim - place_org);
            }
            while place_idx < lim && self.text[place_idx] == input[i + c_idx]
                invariant
                    w == text.subrange(0, SLIDE_N as int),
                    forall|k: int| 0 <= k < lim - place_org ==> #[trigger] text.subrange(0, SLIDE_N as int)[(place_org + k) % (SLIDE_N as int)]
                        == text[place_org + k],
                    match_run(w, place_org as int, input@, i as int, place_idx as int, lim as int) == match_run(
                        w,
                        place_org as int,
                        input@,
                        i as int,
                        place_org + 2,
                        lim as int,
                    ),
                    self.wf(),
                    text == self.text@,
                    0 <= place_org < SLIDE_N,
                    i + 2 < input.len(),
                    curlen == input.len() - i - 1,
                    lim <= big,
                    big <= place_org + curlen,
                    big <= place_org + SLIDE_M,
                    place_org + 2 <= place_idx,
                    place_idx <= lim || place_idx == place_org + 2,
                    c_idx == place_idx - place_org,
                    forall|k: int| 2 <= k < c_idx ==> #[trigger] text[place_org + k] == input[i + k],
                decreases lim - place_idx,
            {
                proof {
                    let k = place_idx - place_org;
                    assert(text.subrange(0, SLIDE_N as int)[(place_org + k) % (SLIDE_N as int)] == text[place_org + k]);
                }
                place_idx += 1;
                c_idx += 1;
            }
            let match_len = place_idx - place_org;
            proof {
                if place_idx < lim {
                    let k = place_idx - place_org;
                    assert(text.subrange(0, SLIDE_N as int)[(place_org + k) % (SLIDE_N as int)] == text[place_org + k]);
                }
                assert(match_len == match_at(w, s as int, place_org as int, input@, i as int));
                lemma_match_run_bounds(w, place_org as int, input@, i as int, place_org + 2, lim as int);
            }
            let ghost old_max = max_len;
            let ghost old_pos = pos;
            let ghost h0 = head;
            proof {
                if match_len >= 3 {
                    let po = place_org as int;
                    let k0 = key_at(text, po);
                    assert(k0 == key);
                    let q = (po + 1) % (SLIDE_N as int);
                    assert(text[po] == input[i as int] && text[q] == input[i + 1]);
                    lemma_mirror_window(text, po, match_len as int);
                    assert forall|k: int| 0 <= k < match_len implies #[trigger] w[(po + k) % (SLIDE_N as int)]
                        == input[i + k] by {
                        if k >= 2 {
                            assert(text[po + k] == input[i + k]);
                        }
                    }
                    lemma_no_overlap(s as int, po, big as int, lim as int, match_len as int);
                }
            }
            if match_len > max_len {
                max_len = match_len;
                pos = place_org;
                if match_len == SLIDE_M {
                    proof {
                        assert forall|q: int| #[trigger] key_matches(w, q, input@, i as int) implies match_at(w, s as int, q, input@, i as int)
                            <= SLIDE_M by {
                            self.lemma_match_at_bound(q, input@, i as int);
                        }
                        assert forall|q: int|
                            #[trigger] key_matches(w, q, input@, i as int) && match_at(w, s as int, q, input@, i as int) == SLIDE_M implies rank[q]
                            <= rank[pos as int] by {
                            assert(key_at(text, q) == key_at(w, q));
                            if q != place_org && rank[q] > rank[place_org as int] {
                                assert(match_at(w, s as int, q, input@, i as int) <= old_max);
                            }
                        }
                    }
                    return Some((pos, max_len));
                }
            }
            head = self.chains[place_org].next;
            proof {
                assert forall|q: int|
                    #[trigger] key_matches(w, q, input@, i as int) && (head == -1 || rank[q] > rank[head as int]) implies q
                    == place_org || rank[q] > rank[h0 as int] by {
                    assert(key_at(text, q) == key_at(w, q));
                }
            }
        }
        if max_len >= 3 {
            Some((pos, max_len))
        } else {
            None
        }
    }

    /// Compresses `input`, continuing from the current window.
    ///
    /// The output is a sequence of groups of up to eight items, each group
    /// led by a flag byte: the items `lz_tokens` gives, a back-reference to
    /// the longest match of three bytes or more wherever there is one (the
    /// position linked last among the longest), a literal elsewhere.
    /// Decompressing it from the window this call started with gives back
    /// `input`, and the window afterwards is the window with `input` written
    /// into it.  The output is at most one byte per input byte and one flag
    /// byte per eight items.
    #[verifier::spinoff_prover]
    #[verifier::rlimit(40)]
    pub fn encode(&mut self, input: &[u8]) -> (out: Vec<u8>)
        requires
            old(self).wf(),
        ensures
            final(self).wf(),
            final(self).same_saved(old(self)),
            final(self).saved_window() == old(self).saved_window(),
            final(self).saved_write_pos() == old(self).saved_write_pos(),
            (final(self).window(), final(self).write_pos()) == write_all(
                old(self).window(),
                old(self).write_pos(),
                input@,
            ),
            lz_decode(out@, old(self).window(), old(self).write_pos()) == (
                input@,
                final(self).window(),
                final(self).write_pos(),
            ),
            exists|ts: Seq<Token>|
                tokens_wf(ts) && out@ == serialize(ts) && apply_tokens(
                    ts,
                    old(self).window(),
                    old(self).write_pos(),
                ) == (input@, final(self).window(), final(self).write_pos()),
            out@ == serialize(
                lz_tokens(old(self).window(), old(self).write_pos(), old(self).recency(), old(self).time(), input@, 0),
            ),
            out@.len() <= input@.len() + (input@.len() + 7) / 8,
            final(self).recency() == relinked(
                old(self).recency(),
                old(self).window(),
                old(self).write_pos(),
                old(self).time(),
                input@,
            ),
            final(self).time() == old(self).time() + 2 * input@.len(),
            final(self).saved_recency() == old(self).saved_recency(),
            final(self).saved_time() == old(self).saved_time(),
    {
        let mut out: Vec<u8> = Vec::new();
        let mut code: Vec<u8> = Vec::new();
        code.push(0u8);
        let mut mask: u8 = 1;
        let mut i: usize = 0;
        let ghost w0 = self.window();
        let ghost s0 = self.write_pos();
        let ghost r0 = self.rank@;
        let ghost c0 = self.clock@;
        let ghost whole = lz_tokens(w0, s0, r0, c0, input@, 0);
        assert(0 <= s0 < SLIDE_N) by {
            self.lemma_window_len();
        }
        let ghost mut full: Seq<Token> = Seq::empty();
        let ghost mut part: Seq<Token> = Seq::empty();
        proof {
            assert(input@.take(0) =~= Seq::<u8>::empty());
            assert(full + part =~= Seq::<Token>::empty());
            assert(full + part + whole =~= whole);
            assert(input@.take(0) =~= Seq::<u8>::empty());
            assert(code@ =~= group_bytes(part)) by {
                assert(items(part) =~= Seq::<u8>::empty());
            }
            assert(mask_at(0) == 1u8) by {
                assert((1u8 << 0u8) == 1u8) by (bit_vector);
            }
        }
        while i < input.len()
            invariant
                self.wf(),
                self.same_saved(old(self)),
                i <= input.len(),
                (self.window(), self.write_pos()) == write_all(w0, s0, input@.take(i as int)),
                apply_tokens(full + part, w0, s0) == (
                    input@.take(i as int),
                    self.window(),
                    self.write_pos(),
                ),
                tokens_wf(full),
                tokens_wf(part),
                full.len() % 8 == 0,
                part.len() < 8,
                out@ == serialize(full),
                code@ == group_bytes(part),
                mask == mask_at(part.len() as int),
                self.rank@ == relinked(r0, w0, s0, c0, input@.take(i as int)),
                self.clock@ == c0 + 2 * i,
                full + part + lz_tokens(w0, s0, r0, c0, input@, i as int) == whole,
            decreases input.len() - i,
        {
            let ghost ts0 = full + part;
            let ghost wa = self.window();
            let ghost sa = self.write_pos();
            let ghost i0 = i as int;
            proof {
                self.lemma_window_len();
            }
            let m = self.get_match(input, i, self.s);
            let ghost rest0 = lz_tokens(w0, s0, r0, c0, input@, i0);
            proof {
                match m {
                    Some((pos, len)) => {
                        self.lemma_best_unique(input@, i0, pos as int, len as int);
                        lemma_lz_backref(w0, s0, r0, c0, input@, i0, wa, sa, self.rank@, pos as int, len as int);
                    },
                    None => {
                        lemma_no_best(wa, sa, self.rank@, input@, i0);
                        lemma_lz_literal(w0, s0, r0, c0, input@, i0, wa, sa, self.rank@);
                    },
                }
            }
            let ghost t: Token;
            if let Some((pos, len)) = m {
                proof {
                    t = Token::Backref(pos as u16, len as u16);
                    let x = flag_byte(part);
                    let n = part.len() as u8;
                    assert(n < 8 ==> (1u8 << n) == (1u8 << n)) by (bit_vector);
                }
                code.set(0, code[0] | mask);
                if len >= 18 {
                    code.push((pos & 0xff) as u8);
                    code.push(((pos >> 8) as u8) | 0xf0);
                    code.push((len - 18) as u8);
                    proof {
                        assert(pos < 4096 ==> (pos & 0xff) as u8 == (pos % 256) as u8) by (bit_vector);
                        assert(pos < 4096 ==> ((pos >> 8) as u8 | 0xf0u8) == (pos / 256 + 240) as u8) by (bit_vector);
                    }
                } else {
                    code.push((pos & 0xff) as u8);
                    code.push(((pos >> 8) as u8) | (((len - 3) as u8) << 4));
                    proof {
                        assert(pos < 4096 ==> (pos & 0xff) as u8 == (pos % 256) as u8) by (bit_vector);
                        let l = (len - 3) as usize;
                        assert(pos < 4096 && l < 15 ==> ((pos >> 8) as u8 | ((l as u8) << 4u8)) == (pos / 256 + 16 * l) as u8) by (bit_vector);
                    }
                }
                let mut k: usize = 0;
                while k < len
                    invariant
                        self.wf(),
                        self.same_saved(old(self)),
                        k <= len,
                        i == i0 + k,
                        0 <= i0,
                        wa.len() == SLIDE_N,
                        0 <= sa < SLIDE_N,
                        valid_match(wa, sa, pos as int, len as int, input@, i0),
                        (self.window(), self.write_pos()) == write_all(w0, s0, input@.take(i as int)),
                        copy_run(wa, sa, pos as int, k as nat) == (
                            input@.subrange(i0, i as int),
                            self.window(),
                            self.write_pos(),
                        ),
                        forall|k2: int|
                            k <= k2 < len ==> self.window()[(pos + k2) % (SLIDE_N as int)]
                                == #[trigger] input@[i0 + k2],
                        self.rank@ == relinked(r0, w0, s0, c0, input@.take(i as int)),
                        self.clock@ == c0 + 2 * i,
                    decreases len - k,
                {
                    let c = input[i];
                    let ghost wk = self.window();
                    proof {
                        self.lemma_window_len();
                        lemma_copy_run_pos(wa, sa, pos as int, k as nat);
                    }
                    self.put_byte(c);
                    proof {
                        assert(input@.take(i + 1).drop_last() =~= input@.take(i as int));
                        let q = (pos + k) % (SLIDE_N as int);
                        assert(wk[q] == c);
                        assert(input@.take(i + 1).drop_last() =~= input@.take(i as int));
                        assert(input@.subrange(i0, i + 1) =~= input@.subrange(i0, i as int).push(c));
                        assert forall|k2: int| k + 1 <= k2 < len implies self.window()[(pos + k2) % (SLIDE_N as int)]
                            == #[trigger] input@[i0 + k2] by {
                            assert(no_clash(sa, pos as int, k as int, k2));
                            assert(wk[(pos + k2) % (SLIDE_N as int)] == input@[i0 + k2]);
                        }
                    }
                    i = i + 1;
                    k = k + 1;
                }
                proof {
                    assert(token_wf(t));
                    assert(apply_token(t, wa, sa) == (input@.subrange(i0, i as int), self.window(), self.write_pos()));
                }
            } else {
                let c = input[i];
                self.put_byte(c);
                code.push(c);
                i = i + 1;
                proof {
                    assert(input@.take(i as int).drop_last() =~= input@.take(i0));
                    t = Token::Literal(c);
                    assert(input@.take(i as int).drop_last() =~= input@.take(i0));
                    assert(input@.subrange(i0, i as int) =~= seq![c]);
                    let x = flag_byte(part);
                    assert((x | 0u8) == x) by (bit_vector);
                }
            }
            proof {
                let ts1 = ts0.push(t);
                assert(ts1 =~= full + part.push(t));
                assert(ts1.drop_last() =~= ts0);
                assert(input@.take(i0) + input@.subrange(i0, i as int) =~= input@.take(i as int));
                let p1 = part.push(t);
                assert(p1.drop_last() =~= part);
                assert(items(p1) == items(part) + item_bytes(t));
                assert(code@ =~= group_bytes(p1));
                assert(tokens_wf(p1)) by {
                    assert forall|k2: int| 0 <= k2 < p1.len() implies #[trigger] token_wf(p1[k2]) by {
                        if k2 < part.len() {
                            assert(p1[k2] == part[k2]);
                        }
                    }
                }
                lemma_mask_step(part.len() as int);
                assert(rest0 == seq![t] + lz_tokens(w0, s0, r0, c0, input@, i as int));
                assert(full + p1 + lz_tokens(w0, s0, r0, c0, input@, i as int) =~= full + part + rest0);
                part = p1;
            }
            mask = mask << 1;
            if mask == 0 {
                proof {
                    assert(part.len() == 8) by {
                        if part.len() < 8 {
                            lemma_mask_step(part.len() as int);
                        }
                    }
                    lemma_serialize_append(full, part);
                    assert(tokens_wf(full + part)) by {
                        assert forall|k2: int| 0 <= k2 < (full + part).len() implies #[trigger] token_wf((full + part)[k2]) by {
                            if k2 < full.len() {
                                assert((full + part)[k2] == full[k2]);
                            } else {
                                assert((full + part)[k2] == part[k2 - full.len()]);
                            }
                        }
                    }
                }
                out.extend_from_slice(code.as_slice());
                code = Vec::new();
                code.push(0u8);
                mask = 1;
                proof {
                    assert(out@ =~= serialize(full) + group_bytes(part));
                    full = full + part;
                    part = Seq::empty();
                    assert(full + part =~= full);
                    assert(code@ =~= group_bytes(part)) by {
                        assert(items(part) =~= Seq::<u8>::empty());
                    }
                    assert(mask_at(0) == 1u8) by {
                        assert((1u8 << 0u8) == 1u8) by (bit_vector);
                    }
                }
            }
        }
        proof {
            assert(input@.take(input.len() as int) =~= input@);
            assert(full + part + Seq::<Token>::empty() =~= full + part);
        }
        if mask != 1 {
            proof {
                assert(part.len() > 0) by {
                    if part.len() == 0 {
                        assert(mask_at(0) == 1u8) by {
                            assert((1u8 << 0u8) == 1u8) by (bit_vector);
                        }
                    }
                }
                lemma_serialize_append(full, part);
            }
            out.extend_from_slice(code.as_slice());
            proof {
                assert(out@ =~= serialize(full + part));
            }
        } else {
            proof {
                assert(part.len() == 0) by {
                    if part.len() > 0 {
                        lemma_mask_ne_one(part.len() as int);
                    }
                }
                assert(full + part =~= full);
            }
        }
        proof {
            let ts = full + part;
            assert(tokens_wf(ts)) by {
                assert forall|k2: int| 0 <= k2 < ts.len() implies #[trigger] token_wf(ts[k2]) by {
                    if k2 < full.len() {
                        assert(ts[k2] == full[k2]);
                    } else {
                        assert(ts[k2] == part[k2 - full.len()]);
                    }
                }
            }
            lemma_roundtrip(ts, w0, s0);
            lemma_lz_output_len(w0, s0, r0, c0, input@);
        }
        out
    }

    /// Decompresses `input`, continuing from the current window.  Stops at
    /// the end of the input or at an item that the input cuts short.
    #[verifier::spinoff_prover]
    #[verifier::rlimit(40)]
    pub fn decode(&mut self, input: &[u8]) -> (out: Vec<u8>)
        requires
            old(self).wf(),
        ensures
            final(self).wf(),
            final(self).same_saved(old(self)),
            final(self).saved_window() == old(self).saved_window(),
            final(self).saved_write_pos() == old(self).saved_write_pos(),
            (out@, final(self).window(), final(self).write_pos()) == lz_decode(
                input@,
                old(self).window(),
                old(self).write_pos(),
            ),
            final(self).recency() == relinked(
                old(self).recency(),
                old(self).window(),
                old(self).write_pos(),
                old(self).time(),
                out@,
            ),
            final(self).time() == old(self).time() + 2 * out@.len(),
            final(self).saved_recency() == old(self).saved_recency(),
            final(self).saved_time() == old(self).saved_time(),
    {
        let mut out: Vec<u8> = Vec::new();
        let mut i: usize = 0;
        let mut mask: u8 = 0;
        let mut code: u8 = 0;
        let mut done = false;
        let ghost w0 = self.window();
        let ghost s0 = self.write_pos();
        let ghost r0 = self.rank@;
        let ghost c0 = self.clock@;
        let ghost total = lz_decode(input@, self.window(), self.write_pos());
        proof {
            assert(out@ + total.0 =~= total.0);
            assert(out@ =~= Seq::<u8>::empty());
        }
        while i < input.len() && !done
            invariant
                self.wf(),
                self.same_saved(old(self)),
                i <= input.len(),
                !done ==> ({
                    let r = dec_from(input@, i as int, mask, code, self.window(), self.write_pos());
                    total == (out@ + r.0, r.1, r.2)
                }),
                done ==> total == (out@, self.window(), self.write_pos()),
                (self.window(), self.write_pos()) == write_all(w0, s0, out@),
                self.rank@ == relinked(r0, w0, s0, c0, out@),
                self.clock@ == c0 + 2 * out@.len(),
            decreases (input.len() - i) * 2 + (if done { 0int } else { 1int }),
        {
            let ghost out_a = out@;
            proof {
                self.lemma_window_len();
                if mask == 0 {
                    lemma_dec_start(input@, i as int, code, self.window(), self.write_pos());
                }
            }
            if mask == 0 {
                code = input[i];
                i = i + 1;
                mask = 1;
            }
            proof {
                assert((mask << 1u8) == (mask << 1u8));
            }
            if code & mask != 0 {
                if i >= input.len() - 1 {
                    done = true;
                    proof {
                        assert(out@ + Seq::<u8>::empty() =~= out@);
                    }
                } else {
                    let b1 = input[i] as usize;
                    let b2 = input[i + 1] as usize;
                    i = i + 2;
                    let mut pos = ((b2 & 0x0f) << 8) | b1;
                    let mut len = (b2 >> 4) & 0x0f;
                    proof {
                        assert(b1 < 256 && b2 < 256 ==> ((b2 & 0x0f) << 8) | b1 == (b2 % 16) * 256 + b1) by (bit_vector);
                        assert(b2 < 256 ==> (b2 >> 4) & 0x0f == b2 / 16) by (bit_vector);
                    }
                    if len == 0xf {
                        if i >= input.len() {
                            done = true;
                            proof {
                                assert(out@ + Seq::<u8>::empty() =~= out@);
                            }
                        } else {
                            len = 18 + input[i] as usize;
                            i = i + 1;
                        }
                    } else {
                        len = len + 3;
                    }
                    if !done {
                        let ghost wa = self.window();
                        let ghost sa = self.write_pos();
                        let ghost pos0 = pos as int;
                        let ghost o0 = out@;
                        let mut k: usize = 0;
                        proof {
                            assert(o0 + Seq::<u8>::empty() =~= o0);
                        }
                        while k < len
                            invariant
                                self.wf(),
                                self.same_saved(old(self)),
                                k <= len,
                                len <= SLIDE_M,
                                0 <= pos0 < SLIDE_N,
                                pos == (pos0 + k) % (SLIDE_N as int),
                                wa.len() == SLIDE_N,
                                0 <= sa < SLIDE_N,
                                ({
                                    let r = copy_run(wa, sa, pos0, k as nat);
                                    out@ == o0 + r.0 && self.window() == r.1 && self.write_pos() == r.2
                                }),
                                (self.window(), self.write_pos()) == write_all(w0, s0, out@),
                                self.rank@ == relinked(r0, w0, s0, c0, out@),
                                self.clock@ == c0 + 2 * out@.len(),
                            decreases len - k,
                        {
                            proof {
                                self.lemma_window_len();
                                lemma_mod_small(pos0 + k);
                            }
                            let c = self.text[pos];
                            proof {
                                assert(c == self.window()[(pos0 + k) % (SLIDE_N as int)]);
                            }
                            let ghost ob = out@;
                            out.push(c);
                            self.put_byte(c);
                            pos = wrap(pos + 1);
                            k = k + 1;
                            proof {
                                assert(out@.drop_last() =~= ob);
                                lemma_mod_small(pos0 + k);
                                let r = copy_run(wa, sa, pos0, (k - 1) as nat);
                                assert(out@ =~= o0 + r.0.push(c));
                            }
                        }
                    }
                }
            } else {
                if i >= input.len() {
                    done = true;
                    proof {
                        assert(out@ + Seq::<u8>::empty() =~= out@);
                    }
                } else {
                    let c = input[i];
                    i = i + 1;
                    out.push(c);
                    self.put_byte(c);
                    proof {
                        assert(out@.drop_last() =~= out_a);
                        assert(out_a + (seq![c] + Seq::<u8>::empty()) =~= out@ + Seq::<u8>::empty());
                    }
                }
            }
            if !done {
                mask = mask << 1;
            }
            proof {
                if !done {
                    let r = dec_from(input@, i as int, mask, code, self.window(), self.write_pos());
                    assert(out_a + (out@.skip(out_a.len() as int) + r.0) =~= out@ + r.0);
                }
            }
        }
        proof {
            if !done {
                let r = dec_from(input@, i as int, mask, code, self.window(), self.write_pos());
                assert(r.0 =~= Seq::<u8>::empty());
                assert(out@ + r.0 =~= out@);
            }
        }
        out
    }

    /// Saves the whole state (window, write position, chains).
    pub fn store(&mut self)
        requires
            old(self).wf(),
        ensures
            final(self).wf(),
            final(self).window() == old(self).window(),
            final(self).write_pos() == old(self).write_pos(),
            final(self).saved_window() == old(self).window(),
            final(self).saved_write_pos() == old(self).write_pos(),
            final(self).saved_recency() == old(self).recency(),
            final(self).saved_time() == old(self).time(),
            final(self).recency() == old(self).recency(),
            final(self).time() == old(self).time(),
            final(self).same_live(old(self)),
    {
        self.backup_text = self.text.clone();
        self.backup_s = self.s;
        self.backup_map = self.map.clone();
        self.backup_chains = self.chains.clone();
        self.backup_rank = Ghost(self.rank@);
        self.backup_clock = Ghost(self.clock@);
        self.backup_detached = Ghost(self.detached@);
        proof {
            assert(self.backup_text@ =~= self.text@);
            assert(self.backup_map@ =~= self.map@);
            assert(self.backup_chains@ =~= self.chains@);
        }
    }

    /// Brings back the state saved by the last `store` (or the initial state).
    pub fn restore(&mut self)
        requires
            old(self).wf(),
        ensures
            final(self).wf(),
            final(self).window() == old(self).saved_window(),
            final(self).write_pos() == old(self).saved_write_pos(),
            final(self).recency() == old(self).saved_recency(),
            final(self).time() == old(self).saved_time(),
            final(self).saved_recency() == old(self).saved_recency(),
            final(self).saved_time() == old(self).saved_time(),
            final(self).same_saved(old(self)),
            final(self).saved_window() == old(self).saved_window(),
            final(self).saved_write_pos() == old(self).saved_write_pos(),
    {
        self.text = self.backup_text.clone();
        self.s = self.backup_s;
        self.map = self.backup_map.clone();
        self.chains = self.backup_chains.clone();
        self.rank = Ghost(self.backup_rank@);
        self.clock = Ghost(self.backup_clock@);
        self.detached = Ghost(self.backup_detached@);
        proof {
            assert(self.backup_text@ =~= self.text@);
            assert(self.backup_map@ =~= self.map@);
            assert(self.backup_chains@ =~= self.chains@);
        }
    }
}

/// The LZSS compressor under the name the stand-alone codec gives it.
pub type SlideEncoder = SlideCompressor;

/// LZSS decompressor with the same window as `SlideCompressor`, without the
/// match-finding chains.  Its window can be preset with `init_with_text`.
pub struct SlideDecoder {
    text: Vec<u8>,
    s: usize,
}

impl SlideDecoder {
    /// The current window contents.
    pub closed spec fn window(&self) -> Seq<u8> {
        self.text@.subrange(0, SLIDE_N as int)
    }

    /// The current write position.
    pub closed spec fn write_pos(&self) -> int {
        self.s as int
    }

    /// The decoder's internal invariant.
    pub closed spec fn wf(&self) -> bool {
        self.text@.len() == TEXT_LEN && self.s < SLIDE_N
    }

    pub proof fn lemma_window_len(&self)
        requires
            self.wf(),
        ensures
            self.window().len() == SLIDE_N,
            0 <= self.write_pos() < SLIDE_N,
    {
    }

    /// A decoder with an all-zero window and write position 0.
    pub fn new() -> (d: Self)
        ensures
            d.wf(),
            d.window() == initial_window(),
            d.write_pos() == 0,
    {
        let d = SlideDecoder { text: vec![0u8; TEXT_LEN], s: 0 };
        proof {
            assert forall|j: int| 0 <= j < SLIDE_N implies #[trigger] d.window()[j] == 0u8 by {
                assert(cloned(0u8, d.text@[j]));
            }
            assert(d.window() =~= initial_window());
        }
        d
    }

    /// Presets the start of the window buffer with `data` (at most its
    /// length, `SLIDE_N + SLIDE_M - 1` bytes).  The write position is kept.
    pub fn init_with_text(&mut self, data: &[u8])
        requires
            old(self).wf(),
        ensures
            final(self).wf(),
            final(self).write_pos() == old(self).write_pos(),
            final(self).window() == (if data@.len() >= SLIDE_N {
                data@.take(SLIDE_N as int)
            } else {
                data@ + old(self).window().skip(data@.len() as int)
            }),
    {
        let len = if data.len() < TEXT_LEN {
            data.len()
        } else {
            TEXT_LEN
        };
        let mut j: usize = 0;
        while j < len
            invariant
                len <= data@.len(),
                len <= TEXT_LEN,
                j <= len,
                self.text@.len() == TEXT_LEN,
                self.s == old(self).s,
                forall|k: int| 0 <= k < j ==> #[trigger] self.text@[k] == data@[k],
                forall|k: int| j <= k < TEXT_LEN ==> #[trigger] self.text@[k] == old(self).text@[k],
            decreases len - j,
        {
            self.text.set(j, data[j]);
            j = j + 1;
        }
        proof {
            if data@.len() >= SLIDE_N {
                assert(self.window() =~= data@.take(SLIDE_N as int));
            } else {
                assert(self.window() =~= data@ + old(self).window().skip(data@.len() as int));
            }
        }
    }

    fn put_byte(&mut self, c: u8)
        requires
            old(self).wf(),
        ensures
            final(self).wf(),
            (final(self).window(), final(self).write_pos()) == put(
                old(self).window(),
                old(self).write_pos(),
                c,
            ),
    {
        let s = self.s;
        if s < SLIDE_M - 1 {
            self.text.set(s + SLIDE_N, c);
        }
        self.text.set(s, c);
        self.s = wrap(s + 1);
        proof {
            assert(self.window() =~= old(self).window().update(s as int, c));
        }
    }

    /// Decompresses `input`, continuing from the current window.  Stops at
    /// the end of the input or at an item that the input cuts short.
    pub fn decode(&mut self, input: &[u8]) -> (out: Vec<u8>)
        requires
            old(self).wf(),
        ensures
            final(self).wf(),
            (out@, final(self).window(), final(self).write_pos()) == lz_decode(
                input@,
                old(self).window(),
                old(self).write_pos(),
            ),
    {
        let mut out: Vec<u8> = Vec::new();
        let mut i: usize = 0;
        let mut mask: u8 = 0;
        let mut code: u8 = 0;
        let mut done = false;
        let ghost total = lz_decode(input@, self.window(), self.write_pos());
        proof {
            assert(out@ + total.0 =~= total.0);
        }
        while i < input.len() && !done
            invariant
                self.wf(),
                i <= input.len(),
                !done ==> ({
                    let r = dec_from(input@, i as int, mask, code, self.window(), self.write_pos());
                    total == (out@ + r.0, r.1, r.2)
                }),
                done ==> total == (out@, self.window(), self.write_pos()),
            decreases (input.len() - i) * 2 + (if done { 0int } else { 1int }),
        {
            let ghost out_a = out@;
            proof {
                self.lemma_window_len();
                if mask == 0 {
                    lemma_dec_start(input@, i as int, code, self.window(), self.write_pos());
                }
            }
            if mask == 0 {
                code = input[i];
                i = i + 1;
                mask = 1;
            }
            if code & mask != 0 {
                if i >= input.len() - 1 {
                    done = true;
                    proof {
                        assert(out@ + Seq::<u8>::empty() =~= out@);
                    }
                } else {
                    let b1 = input[i] as usize;
                    let b2 = input[i + 1] as usize;
                    i = i + 2;
                    let mut pos = ((b2 & 0x0f) << 8) | b1;
                    let mut len = (b2 >> 4) & 0x0f;
                    proof {
                        assert(b1 < 256 && b2 < 256 ==> ((b2 & 0x0f) << 8) | b1 == (b2 % 16) * 256 + b1) by (bit_vector);
                        assert(b2 < 256 ==> (b2 >> 4) & 0x0f == b2 / 16) by (bit_vector);
                    }
                    if len == 0xf {
                        if i >= input.len() {
                            done = true;
                            proof {
                                assert(out@ + Seq::<u8>::empty() =~= out@);
                            }
                        } else {
                            len = 18 + input[i] as usize;
                            i = i + 1;
                        }
                    } else {
                        len = len + 3;
                    }
                    if !done {
                        let ghost wa = self.window();
                        let ghost sa = self.write_pos();
                        let ghost pos0 = pos as int;
                        let ghost o0 = out@;
                        let mut k: usize = 0;
                        proof {
                            assert(o0 + Seq::<u8>::empty() =~= o0);
                        }
                        while k < len
                            invariant
                                self.wf(),
                                k <= len,
                                len <= SLIDE_M,
                                0 <= pos0 < SLIDE_N,
                                pos == (pos0 + k) % (SLIDE_N as int),
                                wa.len() == SLIDE_N,
                                0 <= sa < SLIDE_N,
                                ({
                                    let r = copy_run(wa, sa, pos0, k as nat);
                                    out@ == o0 + r.0 && self.window() == r.1 && self.write_pos() == r.2
                                }),
                            decreases len - k,
                        {
                            proof {
                                self.lemma_window_len();
                                lemma_mod_small(pos0 + k);
                            }
                            let c = self.text[pos];
                            proof {
                                assert(c == self.window()[(pos0 + k) % (SLIDE_N as int)]);
                            }
                            out.push(c);
                            self.put_byte(c);
                            pos = wrap(pos + 1);
                            k = k + 1;
                            proof {
                                lemma_mod_small(pos0 + k);
                                let r = copy_run(wa, sa, pos0, (k - 1) as nat);
                                assert(out@ =~= o0 + r.0.push(c));
                            }
                        }
                    }
                }
            } else {
                if i >= input.len() {
                    done = true;
                    proof {
                        assert(out@ + Seq::<u8>::empty() =~= out@);
                    }
                } else {
                    let c = input[i];
                    i = i + 1;
                    out.push(c);
                    self.put_byte(c);
                    proof {
                        assert(out_a + (seq![c] + Seq::<u8>::empty()) =~= out@ + Seq::<u8>::empty());
                    }
                }
            }
            if !done {
                mask = mask << 1;
            }
            proof {
                if !done {
                    let r = dec_from(input@, i as int, mask, code, self.window(), self.write_pos());
                    assert(out_a + (out@.skip(out_a.len() as int) + r.0) =~= out@ + r.0);
                }
            }
        }
        proof {
            if !done {
                let r = dec_from(input@, i as int, mask, code, self.window(), self.write_pos());
                assert(r.0 =~= Seq::<u8>::empty());
                assert(out@ + r.0 =~= out@);
            }
        }
        out
    }
}

} // verus!
