//! The buffer: an owned text with a cursor, a display mode and a pending
//! repeat count, driven by single key characters.  The keys move the cursor
//! by graphemes or by lines, toggle the mode, or build up the count.

use vstd::prelude::*;

verus! {

use crate::cursor::{
    forward_target, lines_down, position_at, sticky_target, Cursor,
};
use crate::unicode::{grapheme_split, split_graphemes};
use vstd::string::StringSliceAdditionalSpecFns;

/// What the rendering walks the buffer by.
enum Mode {
    Graphemes,
    Lines,
}

/// An owned text under navigation.
pub struct Buffer {
    source: String,
    cursor: Cursor,
    mode: Mode,
    scale: Option<u32>,
}

/// The digit a character stands for, base ten.
pub open spec fn spec_digit10(c: char) -> Option<u32> {
    if '0' <= c && c <= '9' {
        Some((c as u32 - '0' as u32) as u32)
    } else {
        None
    }
}

/// How one key changes the pending repeat count: a digit extends it in base
/// ten (or keeps it unchanged when that would overflow), and any other key
/// clears it.
pub open spec fn next_scale(prev: Option<u32>, code: char) -> Option<u32> {
    match spec_digit10(code) {
        Some(d) => match prev {
            Some(s) => if s as int * 10 + d as int <= u32::MAX as int {
                Some((s * 10 + d) as u32)
            } else {
                Some(s)
            },
            None => Some(d),
        },
        None => None,
    }
}

/// The digit a character stands for, base ten.
fn digit10(c: char) -> (r: Option<u32>)
    ensures
        r == spec_digit10(c),
{
    if '0' <= c && c <= '9' {
        Some(c as u32 - '0' as u32)
    } else {
        None
    }
}

impl Buffer {
    /// The text under navigation.
    pub closed spec fn text(self) -> Seq<char> {
        self.source@
    }

    /// The cursor over the text.
    pub closed spec fn cur(self) -> Cursor {
        self.cursor
    }

    /// The cursor's position as a column, line and byte-offset triple.
    pub open spec fn position(self) -> (int, int, int) {
        self.cur()@
    }

    /// Whether the rendering walks the buffer by lines rather than by
    /// grapheme clusters.
    pub closed spec fn lines_mode(self) -> bool {
        self.mode is Lines
    }

    /// The pending repeat count, if digits have been typed.
    pub closed spec fn scale_opt(self) -> Option<u32> {
        self.scale
    }

    /// The repeat count a movement key uses: the pending count, or one.
    pub open spec fn scale_value(self) -> u32 {
        match self.scale_opt() {
            Some(s) => s,
            None => 1,
        }
    }

    #[verifier::type_invariant]
    closed spec fn inv(self) -> bool {
        self.cursor.valid_for(grapheme_split(self.source@))
    }

    /// A buffer over the given text, with the cursor at the origin, mode by
    /// graphemes, and no pending count.
    pub fn new(input: String) -> (r: Self)
        ensures
            r.text() == input@,
            r.position() == (0int, 0int, 0int),
            !r.lines_mode(),
            r.scale_opt() is None,
    {
        let c = <Cursor as Default>::default();
        proof {
            assert(c.valid_at(grapheme_split(input@), 0));
        }
        Buffer { source: input, cursor: c, mode: Mode::Graphemes, scale: None }
    }

    /// The first grapheme cluster of the text, or the empty string when the
    /// text is empty.
    pub fn current(&self) -> (r: &str)
        ensures
            ({
                let cs = grapheme_split(self.text());
                if cs.len() > 0 {
                    r.spec_bytes() == cs[0]
                } else {
                    r@ == Seq::<char>::empty()
                }
            }),
    {
        let cs = split_graphemes(self.source.as_str());
        let ghost gcs = cs.deep_view();
        let ghost bytes = crate::unicode::cluster_bytes(gcs);
        proof {
            crate::unicode::lemma_cluster_bytes_len(gcs);
            crate::unicode::lemma_deep_view_len(&cs);
            vstd::utf8::encode_utf8_valid_utf8(self.source@);
        }
        if cs.len() == 0 {
            let r = "";
            proof {
                reveal_strlit("");
            }
            r
        } else {
            proof {
                crate::unicode::lemma_deep_view_index(&cs, 0);
                crate::unicode::lemma_boundary_is_char_boundary(gcs, 1);
                crate::unicode::lemma_offset_monotone(gcs, 1, gcs.len() as int);
                crate::unicode::lemma_cluster_at(gcs, 0);
            }
            let len = cs[0].len();
            let halves = self.source.as_str().split_at(len);
            let block = halves.0;
            proof {
                assert(block.spec_bytes() =~= bytes.subrange(0, gcs[0].len() as int));
                assert(block.spec_bytes() =~= gcs[0]);
            }
            block
        }
    }

    /// The text under navigation, borrowed.
    pub fn as_str(&self) -> (r: &str)
        ensures
            r@ == self.text(),
    {
        self.source.as_str()
    }

    /// The cursor over the text.
    pub fn cursor(&self) -> (r: Cursor)
        ensures
            r == self.cur(),
    {
        self.cursor
    }

    /// Whether the rendering walks the buffer by lines rather than by
    /// grapheme clusters.
    pub fn is_lines_mode(&self) -> (r: bool)
        ensures
            r == self.lines_mode(),
    {
        match self.mode {
            Mode::Lines => true,
            Mode::Graphemes => false,
        }
    }

    /// The repeat count a movement key uses: the pending count, or one.
    fn scale(&self) -> (r: u32)
        ensures
            r == self.scale_value(),
    {
        match self.scale {
            Some(s) => s,
            None => 1,
        }
    }

    /// One key: `j` moves down by the repeat count of lines, `l` moves
    /// forward by the repeat count of clusters, `n` with control toggles
    /// the mode, a digit extends the pending count, and every key other
    /// than a digit clears it.  (`h` and `k` are accepted and do nothing.)
    pub fn handle_key(&mut self, code: char, ctrl: bool)
        ensures
            final(self).text() == old(self).text(),
            final(self).scale_opt() == next_scale(old(self).scale_opt(), code),
            final(self).lines_mode() == if code == 'n' && ctrl {
                !old(self).lines_mode()
            } else {
                old(self).lines_mode()
            },
            code == 'j' ==> ({
                let cs = grapheme_split(old(self).text());
                let i = old(self).cur().index_in(cs);
                let n = old(self).scale_value();
                if n == 0 {
                    final(self).cur() == old(self).cur()
                } else {
                    final(self).position() == position_at(
                        cs,
                        sticky_target(cs, lines_down(cs, i, n as int), old(self).position().0),
                    )
                }
            }),
            code == 'l' ==> ({
                let cs = grapheme_split(old(self).text());
                let i = old(self).cur().index_in(cs);
                let n = old(self).scale_value();
                final(self).position() == position_at(cs, forward_target(cs, i, n as int))
            }),
            code != 'j' && code != 'l' ==> final(self).cur() == old(self).cur(),
    {
        proof {
            use_type_invariant(&*self);
        }
        let mut pending: Option<u32> = None;
        if code == 'h' {
            // reserved for backward movement
        } else if code == 'j' {
            let n = self.scale();
            proof {
                let cs = grapheme_split(self.source@);
                let w = choose|w: int| self.cursor.valid_at(cs, w);
                assert(self.cursor.row_valid_at(cs, w));
            }
            let next = self.cursor.forward_lines(self.source.as_str(), n as usize);
            self.cursor = next;
        } else if code == 'k' {
            // reserved for backward movement
        } else if code == 'l' {
            let n = self.scale();
            let next = self.cursor.forward_graphemes(self.source.as_str(), n as usize);
            self.cursor = next;
        } else if code == 'n' && ctrl {
            self.mode = match self.mode {
                Mode::Graphemes => Mode::Lines,
                Mode::Lines => Mode::Graphemes,
            };
        } else {
            match digit10(code) {
                Some(d) => match self.scale {
                    Some(s) => {
                        if s <= (u32::MAX - d) / 10 {
                            proof {
                                assert(s as int * 10 + d as int <= u32::MAX as int)
                                    by (nonlinear_arith)
                                    requires
                                        s <= (u32::MAX - d) / 10,
                                        d <= 9,
                                ;
                            }
                            pending = Some(s * 10 + d);
                        } else {
                            proof {
                                assert(s as int * 10 + d as int > u32::MAX as int)
                                    by (nonlinear_arith)
                                    requires
                                        s > (u32::MAX - d) / 10,
                                        d <= 9,
                                ;
                            }
                            pending = Some(s);
                        }
                    },
                    None => {
                        pending = Some(d);
                    },
                },
                None => {},
            }
        }
        self.scale = pending;
    }
}

} // verus!
