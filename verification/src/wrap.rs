//! Splitting text into pieces of bounded byte length at whitespace, for help output.
use vstd::prelude::*;
use crate::laws::{
    all_trimmed, fits, greedy, last_end, law_split_pieces_at_most_words, law_split_pieces_cover,
    law_split_pieces_fit, law_split_pieces_trimmed, ranges_ok, white_between, word_starts,
};
use crate::matches::strings_view;
use crate::text::{
    byte_len, char_width, is_white, is_whitespace, lemma_byte_len_take_step, substring, utf8_width,
};

verus! {

/// Where the splitter stands: before a word, inside a word, or in the whitespace after one.
#[derive(Clone, Copy, Debug, PartialEq, Eq, Structural)]
pub enum Phase {
    Leading,
    Word,
    Gap,
}

/// The splitter's state. Byte offsets: where the current piece starts, where the last
/// word starts, where the last word ended; and the same three positions counted in
/// characters.
pub struct SplitV {
    pub phase: Phase,
    pub slice_start: int,
    pub last_start: int,
    pub last_end: int,
    pub cs: int,
    pub ls: int,
    pub le: int,
}

pub open spec fn split_start() -> SplitV {
    SplitV { phase: Phase::Leading, slice_start: 0, last_start: 0, last_end: 0, cs: 0, ls: 0, le: 0 }
}

/// One step of the splitter on the character at byte offset `i`, `w` bytes wide, at
/// character index `k`. The piece under way still fits when it can end after this
/// character within `lim` bytes. Gives the new state and the character range of the
/// piece it completes, if any.
pub open spec fn split_step(lim: int, st: SplitV, i: int, w: int, k: int, white: bool) -> (
    SplitV,
    Option<(int, int)>,
) {
    let under = i + w - st.slice_start <= lim;
    match st.phase {
        Phase::Leading => if white {
            (st, None)
        } else {
            (SplitV { phase: Phase::Word, slice_start: i, last_start: i, cs: k, ls: k, ..st }, None)
        },
        Phase::Word => if !white {
            if under {
                (st, None)
            } else if st.last_start == st.slice_start {
                // The piece is a single word that has gone over the limit: it stays whole.
                (st, None)
            } else {
                (SplitV { slice_start: st.last_start, cs: st.ls, ..st }, Some((st.cs, st.le)))
            }
        } else if under {
            (SplitV { phase: Phase::Gap, last_end: i, le: k, ..st }, None)
        } else {
            (SplitV { phase: Phase::Leading, last_end: i, le: k, ..st }, Some((st.cs, k)))
        },
        Phase::Gap => if !white {
            if under {
                (SplitV { phase: Phase::Word, last_start: i, ls: k, ..st }, None)
            } else {
                (
                    SplitV {
                        phase: Phase::Word,
                        slice_start: i,
                        last_start: i,
                        last_end: i,
                        cs: k,
                        ls: k,
                        le: k,
                    },
                    Some((st.cs, st.le)),
                )
            }
        } else if under {
            (st, None)
        } else {
            (SplitV { phase: Phase::Leading, ..st }, Some((st.cs, st.le)))
        },
    }
}

pub open spec fn emit(ss: Seq<char>, pieces: Seq<Seq<char>>, p: Option<(int, int)>) -> Seq<
    Seq<char>,
> {
    match p {
        Some((a, b)) => pieces.push(ss.subrange(a, b)),
        None => pieces,
    }
}

pub open spec fn tail_measure(lim: int, st: SplitV, i: int) -> int {
    (if st.phase == Phase::Word {
        1int
    } else {
        0int
    }) + (if lim + st.slice_start + 1 - i > 0 {
        lim + st.slice_start + 1 - i
    } else {
        0int
    })
}

/// After the text: the splitter is fed spaces, at byte offsets `i`, `i + 1`, ...,
/// until it is back before a word.
pub open spec fn split_tail(ss: Seq<char>, lim: int, i: int, st: SplitV, pieces: Seq<Seq<char>>) -> Seq<
    Seq<char>,
>
    decreases tail_measure(lim, st, i),
{
    if st.phase == Phase::Leading {
        pieces
    } else {
        let (st2, p) = split_step(lim, st, i, 1, ss.len() as int, true);
        let pieces2 = emit(ss, pieces, p);
        if st2.phase == Phase::Leading {
            pieces2
        } else {
            split_tail(ss, lim, i + 1, st2, pieces2)
        }
    }
}

/// The splitter over the characters from index `k` (at byte offset `i`) on, then the tail.
pub open spec fn split_run(
    ss: Seq<char>,
    lim: int,
    k: int,
    i: int,
    st: SplitV,
    pieces: Seq<Seq<char>>,
) -> Seq<Seq<char>>
    decreases ss.len() - k,
{
    if k >= ss.len() || k < 0 {
        split_tail(ss, lim, i, st, pieces)
    } else {
        let (st2, p) = split_step(lim, st, i, char_width(ss[k]) as int, k, is_white(ss[k]));
        split_run(ss, lim, k + 1, i + char_width(ss[k]), st2, emit(ss, pieces, p))
    }
}

/// The pieces `ss` is split into with the byte limit `lim`.
pub open spec fn split_within(ss: Seq<char>, lim: nat) -> Seq<Seq<char>> {
    let total = byte_len(ss);
    let lim2 = if lim >= total {
        total
    } else {
        lim
    };
    split_run(ss, lim2 as int, 0, 0, split_start(), Seq::empty())
}

/// The splitter's state, as the code holds it.
pub struct SplitCursor {
    pub phase: Phase,
    pub slice_start: usize,
    pub last_start: usize,
    pub last_end: usize,
    pub cs: usize,
    pub ls: usize,
    pub le: usize,
}

impl View for SplitCursor {
    type V = SplitV;

    open spec fn view(&self) -> SplitV {
        SplitV {
            phase: self.phase,
            slice_start: self.slice_start as int,
            last_start: self.last_start as int,
            last_end: self.last_end as int,
            cs: self.cs as int,
            ls: self.ls as int,
            le: self.le as int,
        }
    }
}

/// The positions a state holds lie behind character `k` and byte offset `i`, and the
/// piece it may complete is a well-formed range.
pub open spec fn split_inv(st: SplitV, k: int, i: int) -> bool {
    &&& 0 <= st.cs <= k && 0 <= st.ls <= k && 0 <= st.le <= k
    &&& 0 <= st.slice_start <= i && 0 <= st.last_start <= i && 0 <= st.last_end <= i
    &&& st.phase == Phase::Word ==> ((st.ls == st.cs && st.last_start == st.slice_start) || (st.cs
        <= st.le <= st.ls))
    &&& st.phase == Phase::Gap ==> st.cs <= st.le
}

fn step_exec(lim: usize, st: &mut SplitCursor, i: usize, w: usize, k: usize, white: bool) -> (p:
    Option<(usize, usize)>)
    requires
        split_inv(old(st)@, k as int, i as int),
        i + w <= usize::MAX,
    ensures
        final(st)@ == split_step(lim as int, old(st)@, i as int, w as int, k as int, white).0,
        split_inv(final(st)@, k as int, i as int),
        match split_step(lim as int, old(st)@, i as int, w as int, k as int, white).1 {
            Some((a, b)) => p matches Some((pa, pb)) && pa == a && pb == b && a <= b <= k,
            None => p is None,
        },
{
    let under = i - st.slice_start + w <= lim;
    match st.phase {
        Phase::Leading => {
            if !white {
                st.phase = Phase::Word;
                st.slice_start = i;
                st.last_start = i;
                st.cs = k;
                st.ls = k;
            }
            None
        },
        Phase::Word => {
            if !white {
                if under {
                    None
                } else if st.last_start == st.slice_start {
                    None
                } else {
                    let piece = (st.cs, st.le);
                    st.slice_start = st.last_start;
                    st.cs = st.ls;
                    Some(piece)
                }
            } else if under {
                st.phase = Phase::Gap;
                st.last_end = i;
                st.le = k;
                None
            } else {
                st.phase = Phase::Leading;
                st.last_end = i;
                st.le = k;
                Some((st.cs, k))
            }
        },
        Phase::Gap => {
            if !white {
                if under {
                    st.phase = Phase::Word;
                    st.last_start = i;
                    st.ls = k;
                    None
                } else {
                    let piece = (st.cs, st.le);
                    st.phase = Phase::Word;
                    st.slice_start = i;
                    st.last_start = i;
                    st.last_end = i;
                    st.cs = k;
                    st.ls = k;
                    st.le = k;
                    Some(piece)
                }
            } else if under {
                None
            } else {
                st.phase = Phase::Leading;
                Some((st.cs, st.le))
            }
        },
    }
}

/// Splits a string into substrings with possibly internal whitespace,
/// each of them at most `lim` bytes long, if possible. The substrings
/// have leading and trailing whitespace removed, and are only cut at
/// whitespace boundaries. A single word longer than `lim` stays whole.
/// Lengths count the bytes up to the end of each character.
pub fn each_split_within(ss: &str, lim: usize) -> (pieces: Vec<String>)
    requires
        byte_len(ss@) <= isize::MAX,
    ensures
        strings_view(pieces@) == split_within(ss@, lim as nat),
        // every piece is non-empty and has no whitespace at either end
        all_trimmed(strings_view(pieces@)),
        // every piece fits the limit, or is a single word longer by itself
        forall|j: int| 0 <= j < pieces.len() ==> fits(#[trigger] strings_view(pieces@)[j], lim as nat),
        // the pieces are slices of the text in order, with only whitespace around and
        // between them, and filled greedily
        exists|r: Seq<(int, int)>|
            ranges_ok(ss@, r, strings_view(pieces@)) && white_between(
                ss@,
                last_end(r),
                ss@.len() as int,
            ) && greedy(ss@, lim as int, r),
        pieces.len() == 0 <==> white_between(ss@, 0, ss@.len() as int),
        pieces.len() <= word_starts(ss@).len(),
{
    let ghost lim_in = lim;
    let n = ss.unicode_len();
    // the total byte length, and with it the limit
    let mut total: usize = 0;
    let mut k: usize = 0;
    while k < n
        invariant
            k <= n,
            n == ss@.len(),
            byte_len(ss@) <= isize::MAX,
            total == byte_len(ss@.take(k as int)),
        decreases n - k,
    {
        proof {
            lemma_byte_len_take_step(ss@, k as int);
            crate::text::lemma_byte_len_take_le(ss@, k + 1);
        }
        total = total + utf8_width(ss.get_char(k));
        k = k + 1;
    }
    assert(ss@.take(n as int) =~= ss@);
    let lim = if lim >= total {
        total
    } else {
        lim
    };
    let ghost whole = split_within(ss@, lim as nat);
    let mut st = SplitCursor { phase: Phase::Leading, slice_start: 0, last_start: 0, last_end: 0, cs: 0, ls: 0, le: 0 };
    let mut pieces: Vec<String> = Vec::new();
    let mut i: usize = 0;
    k = 0;
    assert(ss@.take(0) =~= Seq::<char>::empty());
    assert(strings_view(pieces@) =~= Seq::<Seq<char>>::empty());
    while k < n
        invariant
            k <= n,
            n == ss@.len(),
            lim <= total,
            total == byte_len(ss@),
            total <= isize::MAX,
            i == byte_len(ss@.take(k as int)),
            i <= total,
            split_inv(st@, k as int, i as int),
            whole == split_run(ss@, lim as int, k as int, i as int, st@, strings_view(pieces@)),
        decreases n - k,
    {
        let c = ss.get_char(k);
        let white = is_whitespace(c);
        let w = utf8_width(c);
        let ghost pv = strings_view(pieces@);
        let p = step_exec(lim, &mut st, i, w, k, white);
        match p {
            Some((a, b)) => {
                pieces.push(substring(ss, a, b));
                assert(strings_view(pieces@) =~= pv.push(ss@.subrange(a as int, b as int)));
            },
            None => {},
        }
        proof {
            lemma_byte_len_take_step(ss@, k as int);
            crate::text::lemma_byte_len_take_le(ss@, k + 1);
        }
        i = i + w;
        k = k + 1;
    }
    // Let the splitter run out on trailing whitespace.
    while st.phase != Phase::Leading
        invariant
            k == n,
            n == ss@.len(),
            lim <= total,
            total <= isize::MAX,
            total <= i <= 2 * total,
            st.slice_start <= total,
            split_inv(st@, k as int, i as int),
            whole == split_tail(ss@, lim as int, i as int, st@, strings_view(pieces@)),
        decreases (if st.phase == Phase::Leading {
            0int
        } else {
            1 + tail_measure(lim as int, st@, i as int)
        }),
    {
        let ghost pv = strings_view(pieces@);
        let p = step_exec(lim, &mut st, i, 1, k, true);
        match p {
            Some((a, b)) => {
                pieces.push(substring(ss, a, b));
                assert(strings_view(pieces@) =~= pv.push(ss@.subrange(a as int, b as int)));
            },
            None => {},
        }
        if st.phase != Phase::Leading {
            i = i + 1;
        }
    }
    proof {
        law_split_pieces_trimmed(ss@, lim_in as nat);
        law_split_pieces_fit(ss@, lim_in as nat);
        law_split_pieces_at_most_words(ss@, lim_in as nat);
        let r = law_split_pieces_cover(ss@, lim_in as nat);
        assert(ranges_ok(ss@, r, strings_view(pieces@)) && white_between(
            ss@,
            last_end(r),
            ss@.len() as int,
        ) && greedy(ss@, lim_in as int, r));
    }
    pieces
}

} // verus!
