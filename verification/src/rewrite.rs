use vstd::prelude::*;

verus! {

/// The space byte, `b' '`.
pub const SPACE: u8 = 0x20;

/// The carriage-return byte, `b'\r'`.
pub const CR: u8 = 0x0d;

/// The line-feed byte, `b'\n'`.
pub const LF: u8 = 0x0a;

/// What the byte at position `j` of `s` becomes when every `" \r"` of `s` is turned
/// into `"\r\n"`: the space of such a pair becomes `\r`, its return becomes `\n`,
/// every other byte stays.
pub open spec fn rewritten_byte(s: Seq<u8>, j: int) -> u8 {
    if s[j] == SPACE && j + 1 < s.len() && s[j + 1] == CR {
        CR
    } else if s[j] == CR && j >= 1 && s[j - 1] == SPACE {
        LF
    } else {
        s[j]
    }
}

/// `s` with every `" \r"` replaced by `"\r\n"`. Both sides are two bytes long, so
/// the length does not change.
pub open spec fn space_cr_rewritten(s: Seq<u8>) -> Seq<u8> {
    Seq::new(s.len(), |j: int| rewritten_byte(s, j))
}

/// The value position `k` of `t` holds once every pair that ends at or before `k`
/// has been rewritten, but before the pair `(k, k + 1)` has been looked at.
spec fn left_rewritten_byte(t: Seq<u8>, k: int) -> u8 {
    if t[k] == CR && k >= 1 && t[k - 1] == SPACE {
        LF
    } else {
        t[k]
    }
}

/// Rewrites every `" \r"` into `"\r\n"`, in place.
///
/// A return that follows a space marks a wrap that the program guessed at; turning it
/// into a real line break gives every repaint a frame of its own. `"\r\n"` is left
/// alone, and so is a return that follows anything but a space.
pub fn rewrite_space_cr(buf: &mut [u8])
    ensures
        final(buf)@ == space_cr_rewritten(old(buf)@),
{
    rewrite_space_cr_from(buf, 0);
    assert(old(buf)@.skip(0) =~= old(buf)@);
    assert(old(buf)@.take(0) + space_cr_rewritten(old(buf)@) =~= space_cr_rewritten(old(buf)@));
}

/// Rewrites every `" \r"` that lies wholly within `buf[from..]`; the bytes before
/// `from` are neither read nor written.
pub fn rewrite_space_cr_from(buf: &mut [u8], from: usize)
    requires
        from <= old(buf)@.len(),
    ensures
        final(buf)@ == old(buf)@.take(from as int) + space_cr_rewritten(old(buf)@.skip(from as int)),
{
    let ghost o = buf@;
    let ghost t = o.skip(from as int);
    let n = buf.len();
    if from == n {
        assert(o.take(from as int) + space_cr_rewritten(t) =~= o);
        return;
    }
    let mut i: usize = from + 1;
    while i < n
        invariant
            buf@.len() == n,
            n == o.len(),
            t == o.skip(from as int),
            from + 1 <= i <= n,
            forall|j: int| 0 <= j < from ==> buf@[j] == o[j],
            forall|j: int|
                from <= j < i - 1 ==> buf@[j] == space_cr_rewritten(t)[j - from],
            buf@[i - 1] == left_rewritten_byte(t, i - 1 - from),
            forall|j: int| i <= j < n ==> buf@[j] == o[j],
        decreases n - i,
    {
        if buf[i] == CR && buf[i - 1] == SPACE {
            buf[i - 1] = CR;
            buf[i] = LF;
        }
        i = i + 1;
    }
    assert(buf@ =~= o.take(from as int) + space_cr_rewritten(t));
}

/// Appending to a stream changes its rewritten form at one place at most: the last
/// byte of the old stream, and only where that byte is a space. So rewriting only the
/// old last byte together with the new bytes gives the rewritten form of the whole.
pub proof fn lemma_rewrite_append(s: Seq<u8>, d: Seq<u8>, from: int)
    requires
        s.len() - 1 <= from <= s.len(),
        0 <= from,
        from == s.len() && s.len() > 0 ==> s.last() != SPACE,
    ensures
        space_cr_rewritten(s).take(from) + space_cr_rewritten(
            (space_cr_rewritten(s) + d).skip(from),
        ) == space_cr_rewritten(s + d),
{
    let r = space_cr_rewritten(s);
    let t = (r + d).skip(from);
    let whole = space_cr_rewritten(s + d);
    let lhs = r.take(from) + space_cr_rewritten(t);
    let n = s.len() as int;
    assert(lhs.len() == whole.len());
    assert forall|j: int| 0 <= j < whole.len() implies lhs[j] == whole[j] by {
        assert((s + d)[j] == if j < n { s[j] } else { d[j - n] });
        if j < from {
            assert(lhs[j] == r[j]);
            if j + 1 < n {
                assert((s + d)[j + 1] == s[j + 1]);
            }
            if j >= 1 {
                assert((s + d)[j - 1] == s[j - 1]);
            }
        } else {
            let k = j - from;
            assert(lhs[j] == space_cr_rewritten(t)[k]);
            if from == n {
                assert(t =~= d);
                assert((s + d)[j] == d[k]);
                if k + 1 < d.len() {
                    assert((s + d)[j + 1] == d[k + 1]);
                }
                if k >= 1 {
                    assert((s + d)[j - 1] == d[k - 1]);
                }
                if k == 0 && n > 0 {
                    assert((s + d)[j - 1] == s.last());
                }
            } else {
                assert(t.len() == d.len() + 1);
                assert(t[0] == r[n - 1]);
                assert forall|m: int| 1 <= m < t.len() implies t[m] == d[m - 1] by {}
                if k == 0 {
                    if n >= 2 {
                        assert((s + d)[j - 1] == s[n - 2]);
                    }
                    if d.len() > 0 {
                        assert((s + d)[j + 1] == d[0]);
                        assert(t[1] == d[0]);
                    }
                } else {
                    assert((s + d)[j] == d[k - 1]);
                    assert(t[k] == d[k - 1]);
                    if k + 1 < t.len() {
                        assert((s + d)[j + 1] == d[k]);
                        assert(t[k + 1] == d[k]);
                    }
                    if k == 1 {
                        assert((s + d)[j - 1] == s[n - 1]);
                    } else {
                        assert((s + d)[j - 1] == d[k - 2]);
                        assert(t[k - 1] == d[k - 2]);
                    }
                }
            }
        }
    }
    assert(lhs =~= whole);
}

/// `s` holds a space directly followed by a carriage return.
pub open spec fn has_space_cr(s: Seq<u8>) -> bool {
    exists|i: int| 0 <= i && i + 1 < s.len() && s[i] == SPACE && #[trigger] s[i + 1] == CR
}

/// The rewrite keeps the length, and a stream without `" \r"` (plain text, `\r\n`,
/// a redraw that returns off a non-space) passes through verbatim.
pub proof fn lemma_rewrite_keeps_other_text(s: Seq<u8>)
    ensures
        space_cr_rewritten(s).len() == s.len(),
        !has_space_cr(s) ==> space_cr_rewritten(s) == s,
{
    if !has_space_cr(s) {
        assert forall|j: int| 0 <= j < s.len() implies space_cr_rewritten(s)[j] == s[j] by {
            if j + 1 < s.len() && s[j] == SPACE && s[j + 1] == CR {
                assert(has_space_cr(s));
            }
            if j >= 1 && s[j] == CR && s[j - 1] == SPACE {
                assert(s[(j - 1) + 1] == CR);
                assert(has_space_cr(s));
            }
        }
        assert(space_cr_rewritten(s) =~= s);
    }
}

} // verus!
