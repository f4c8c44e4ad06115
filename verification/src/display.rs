//! Showing a deck: its listing and its link.
use crate::context::Context;
use crate::deck::{copies, is_listing, lemma_listing_gap, listing_bound, DeckBTree};
use crate::fitness::curve_of;
use crate::generics::{hist, hist_of};
use crate::text::{
    blanks_of, chars_of, decimal, digits_of, push_blanks, push_chars, push_decimal, push_text,
    text_of,
};
use vstd::prelude::*;

verus! {

/// The lines of the held cards with an index below `bound`, in ascending
/// order of index; `line` gives the line of a card.
pub open spec fn text_below(m: Map<usize, i8>, line: spec_fn(int) -> Seq<char>, bound: int) -> Seq<
    char,
>
    decreases bound,
{
    if bound <= 0 {
        Seq::empty()
    } else {
        text_below(m, line, bound - 1) + if copies(m, bound - 1) > 0 {
            line(bound - 1)
        } else {
            Seq::empty()
        }
    }
}

/// Where no index in `[a, b)` is held, no line is added.
pub proof fn lemma_text_gap(m: Map<usize, i8>, line: spec_fn(int) -> Seq<char>, a: int, b: int)
    requires
        a <= b,
        forall|k: usize| a <= k < b ==> !m.contains_key(k),
    ensures
        text_below(m, line, b) == text_below(m, line, a),
    decreases b - a,
{
    if a < b {
        lemma_text_gap(m, line, a, b - 1);
        assert(text_below(m, line, b) =~= text_below(m, line, b - 1));
    }
}

/// The character of digit `d` in base 64: the digits, the capitals, the
/// small letters, then `-` and `_`.
pub open spec fn radix_char(d: int) -> char {
    if d < 10 {
        ((48 + d) as u8) as char
    } else if d < 36 {
        ((55 + d) as u8) as char
    } else if d < 62 {
        ((61 + d) as u8) as char
    } else if d == 62 {
        '-'
    } else {
        '_'
    }
}

/// The digits of `id` in base 64, most significant first; none for an id
/// that is not positive.
pub open spec fn radix64(id: int) -> Seq<char>
    decreases id,
{
    if id <= 0 {
        Seq::empty()
    } else {
        radix64(id / 64).push(radix_char(id % 64))
    }
}

/// `n` times `s`.
pub open spec fn repeated(s: Seq<char>, n: int) -> Seq<char>
    decreases n,
{
    if n <= 0 {
        Seq::empty()
    } else {
        repeated(s, n - 1) + s
    }
}

/// The part of a deck's link that stands for the card at position `i`: its
/// id in base 64 and a dot, once for each copy.
pub open spec fn link_part(m: Map<usize, i8>, ctx: Context) -> spec_fn(int) -> Seq<char> {
    |i: int| repeated(radix64(ctx.cards_vec.0@[i] as int).push('.'), copies(m, i))
}

/// The start of every deck link.
pub open spec fn link_start() -> Seq<char> {
    "https://shadowverse-portal.com/deck/"@
}

/// The link of deck `m`: the format's number, the craft, and the cards.
pub open spec fn url_of(m: Map<usize, i8>, ctx: Context) -> Seq<char> {
    link_start() + digits_of(
        if ctx.game_mode == 0 {
            3
        } else {
            1
        },
    ) + seq!['.'] + digits_of(ctx.craft as int) + seq!['.'] + text_below(
        m,
        link_part(m, ctx),
        usize::MAX + 1,
    )
}

/// The digits of `n`, with blanks after them up to three characters.
pub open spec fn three_wide(n: int) -> Seq<char> {
    digits_of(n) + blanks_of(3 - digits_of(n).len())
}

/// The line of a deck's listing for the card at position `i`: its position,
/// its copies and its name.
pub open spec fn listing_line(m: Map<usize, i8>, ctx: Context) -> spec_fn(int) -> Seq<char> {
    |i: int|
        seq!['['] + three_wide(i) + seq![']', ' '] + digits_of(copies(m, i)) + seq!['x', ' ']
            + ctx.card(i).name_@ + seq!['\n']
}

/// The cost curve of `m` as plain counts.
pub open spec fn curve_counts(m: Map<usize, i8>, ctx: Context) -> Seq<usize> {
    Seq::new(8, |b: int| curve_of(m, ctx)[b] as usize)
}

/// The listing of deck `m`: the histogram of its cost curve, then a line
/// for each card.
pub open spec fn as_string_of(m: Map<usize, i8>, ctx: Context) -> Seq<char> {
    hist_of(curve_counts(m, ctx), seq!['#'], 1, 1) + text_below(
        m,
        listing_line(m, ctx),
        usize::MAX + 1,
    )
}

/// The digits of `id` in base 64, most significant first.
pub fn encode_id(id: i32) -> (digits: Vec<char>)
    ensures
        digits@ == radix64(id as int),
    decreases id,
{
    if id <= 0 {
        Vec::new()
    } else {
        let mut digits = encode_id(id / 64);
        let d: u8 = (id % 64) as u8;
        let c: char = if d < 10 {
            (48 + d) as char
        } else if d < 36 {
            (55 + d) as char
        } else if d < 62 {
            (61 + d) as char
        } else if d == 62 {
            '-'
        } else {
            '_'
        };
        digits.push(c);
        digits
    }
}

impl DeckBTree {
    /// The deck's listing: the histogram of its cost curve, then a line for
    /// each card with its position, its copies and its name.
    pub fn as_string(&self, ctx: &Context) -> (listing: String)
        requires
            self.wf(),
            ctx.wf(),
            self.fits(ctx),
        ensures
            listing@ == as_string_of(self@, *ctx),
    {
        let curve = self.pp_curve(ctx);
        let mut counts: Vec<usize> = Vec::new();
        let mut b: usize = 0;
        while b < 8
            invariant
                b <= 8,
                counts@.len() == b,
                curve@ == curve_of(self@, *ctx),
                forall|k: int| 0 <= k < 8 ==> 0 <= #[trigger] curve@[k],
                forall|k: int| 0 <= k < b ==> #[trigger] counts@[k] == curve@[k] as usize,
            decreases 8 - b,
        {
            counts.push(curve[b] as usize);
            b = b + 1;
        }
        assert(counts@ =~= curve_counts(self@, *ctx));
        proof {
            reveal_strlit("#");
            assert("#"@ =~= seq!['#']);
            assert(vstd::string::is_ascii("#"));
            vstd::string::is_ascii_spec_bytes("#");
            assert("#".len() == 1);
        }
        let plot = hist(counts.as_slice(), "#", 1);
        let mut out: Vec<char> = chars_of(plot.as_str());
        let ghost start = out@;
        let ghost line = listing_line(self@, *ctx);
        let v = self.entries();
        let mut i: usize = 0;
        proof {
            lemma_listing_gap(v@, self@, 0);
            lemma_text_gap(self@, line, 0, listing_bound(v@, 0));
        }
        while i < v.len()
            invariant
                i <= v.len(),
                is_listing(v@, self@),
                self.wf(),
                ctx.wf(),
                self.fits(ctx),
                line == listing_line(self@, *ctx),
                out@ == start + text_below(self@, line, listing_bound(v@, i as int)),
            decreases v.len() - i,
        {
            let idx = v[i].0;
            let qty = v[i].1;
            let ghost before = out@;
            out.push('[');
            let digits = decimal(idx);
            push_chars(&mut out, &digits);
            if digits.len() < 3 {
                push_blanks(&mut out, 3 - digits.len());
            }
            out.push(']');
            out.push(' ');
            push_decimal(&mut out, qty as usize);
            out.push('x');
            out.push(' ');
            push_text(&mut out, ctx.idx_to_card(idx).name_.as_str());
            out.push('\n');
            proof {
                lemma_listing_gap(v@, self@, i as int + 1);
                assert(out@ =~= before + line(idx as int));
                assert(text_below(self@, line, idx + 1) =~= text_below(self@, line, idx as int)
                    + line(idx as int));
                lemma_text_gap(self@, line, idx + 1, listing_bound(v@, i as int + 1));
            }
            i = i + 1;
        }
        text_of(&out)
    }

    /// The deck's link on the portal site: the format's number, the craft,
    /// and for each copy of each card its id in base 64.
    pub fn url(&self, ctx: &Context) -> (link: String)
        requires
            self.wf(),
            ctx.wf(),
            self.fits(ctx),
            ctx.game_mode <= 1,
        ensures
            link@ == url_of(self@, *ctx),
    {
        let mut out: Vec<char> = Vec::new();
        push_text(&mut out, "https://shadowverse-portal.com/deck/");
        push_decimal(
            &mut out,
            if ctx.game_mode == 0 {
                3
            } else {
                1
            },
        );
        out.push('.');
        push_decimal(&mut out, ctx.craft);
        out.push('.');
        let ghost start = out@;
        let ghost part = link_part(self@, *ctx);
        let v = self.entries();
        let mut i: usize = 0;
        proof {
            assert(start =~= link_start() + digits_of(
                if ctx.game_mode == 0 {
                    3
                } else {
                    1
                },
            ) + seq!['.'] + digits_of(ctx.craft as int) + seq!['.']);
            lemma_listing_gap(v@, self@, 0);
            lemma_text_gap(self@, part, 0, listing_bound(v@, 0));
        }
        while i < v.len()
            invariant
                i <= v.len(),
                is_listing(v@, self@),
                self.wf(),
                ctx.wf(),
                self.fits(ctx),
                part == link_part(self@, *ctx),
                out@ == start + text_below(self@, part, listing_bound(v@, i as int)),
            decreases v.len() - i,
        {
            let idx = v[i].0;
            let qty = v[i].1;
            let mut card_hash = encode_id(ctx.cards_vec.0[idx]);
            card_hash.push('.');
            let ghost before = out@;
            let mut c: i8 = 0;
            while c < qty
                invariant
                    0 <= c <= qty,
                    out@ == before + repeated(card_hash@, c as int),
                decreases qty - c,
            {
                push_chars(&mut out, &card_hash);
                assert(out@ =~= before + repeated(card_hash@, c as int + 1));
                c = c + 1;
            }
            proof {
                lemma_listing_gap(v@, self@, i as int + 1);
                assert(out@ =~= before + part(idx as int));
                assert(text_below(self@, part, idx + 1) =~= text_below(self@, part, idx as int)
                    + part(idx as int));
                lemma_text_gap(self@, part, idx + 1, listing_bound(v@, i as int + 1));
            }
            i = i + 1;
        }
        text_of(&out)
    }
}

} // verus!
