//! Packed colours, the gamma curve on a channel, and the per-pixel sample
//! accumulator.

use vstd::prelude::*;

verus! {

/// A colour of three 8-bit channels.
#[derive(Debug, Clone, Copy, PartialEq, Eq, Structural)]
pub struct Color {
    pub red: u8,
    pub green: u8,
    pub blue: u8,
}

/// `r` is the gamma-corrected value of channel `c`: the whole part of
/// `sqrt(c / 255) * 255`, which is the integer square root of `255 * c`.
pub open spec fn is_gamma_of(r: u8, c: u8) -> bool {
    r * r <= 255 * c < (r + 1) * (r + 1)
}

/// The gamma-corrected value of a channel.
pub open spec fn gamma_of(c: u8) -> u8 {
    choose|r: u8| is_gamma_of(r, c)
}

/// At most one value is the gamma-corrected value of a channel.
pub proof fn lemma_gamma_unique(r1: u8, r2: u8, c: u8)
    requires
        is_gamma_of(r1, c),
        is_gamma_of(r2, c),
    ensures
        r1 == r2,
{
    if r1 < r2 {
        assert((r1 + 1) * (r1 + 1) <= r2 * r2) by (nonlinear_arith)
            requires
                r1 + 1 <= r2,
                0 <= r1,
        ;
    } else if r2 < r1 {
        assert((r2 + 1) * (r2 + 1) <= r1 * r1) by (nonlinear_arith)
            requires
                r2 + 1 <= r1,
                0 <= r2,
        ;
    }
}

/// Every channel has a gamma-corrected value.
pub proof fn lemma_gamma_exists(c: u8)
    ensures
        is_gamma_of(gamma_of(c), c),
{
    let r = root_from(255 * c, 0);
    assert(is_gamma_of(r as u8, c));
}

/// Walks up from `r` to the integer square root of `n`.
proof fn root_from(n: int, r: int) -> (s: int)
    requires
        0 <= r <= 255,
        r * r <= n < 256 * 256,
    ensures
        0 <= s <= 255,
        s * s <= n < (s + 1) * (s + 1),
    decreases 256 - r,
{
    if (r + 1) * (r + 1) <= n {
        root_from(n, r + 1)
    } else {
        r
    }
}

/// Gamma correction of one channel: the whole part of `sqrt(c / 255) * 255`.
pub fn gamma_channel(c: u8) -> (r: u8)
    ensures
        is_gamma_of(r, c),
        r == gamma_of(c),
{
    let n: u32 = 255 * (c as u32);
    let mut lo: u32 = 0;
    let mut hi: u32 = 256;
    while hi - lo > 1
        invariant
            lo < hi <= 256,
            lo * lo <= n,
            n < hi * hi,
            n == 255 * c,
        decreases hi - lo,
    {
        let mid: u32 = lo + (hi - lo) / 2;
        assert(mid * mid <= 256 * 256) by (nonlinear_arith)
            requires
                mid <= 256,
        ;
        if mid * mid <= n {
            lo = mid;
        } else {
            hi = mid;
        }
    }
    let r: u8 = lo as u8;
    proof {
        assert(hi == lo + 1);
        assert(is_gamma_of(r, c));
        lemma_gamma_exists(c);
        lemma_gamma_unique(r, gamma_of(c), c);
    }
    r
}

impl Color {
    pub fn new(red: u8, green: u8, blue: u8) -> (color: Color)
        ensures
            color == (Color { red, green, blue }),
    {
        Color { red, green, blue }
    }

    /// The colour with every channel gamma-corrected.
    pub open spec fn gamma(self) -> Color {
        Color { red: gamma_of(self.red), green: gamma_of(self.green), blue: gamma_of(self.blue) }
    }

    /// Replaces each channel by what `func` makes of it.
    pub fn apply_func<F>(&mut self, func: F) where F: Fn(u8) -> u8
        requires
            func.requires((old(self).red,)),
            func.requires((old(self).green,)),
            func.requires((old(self).blue,)),
        ensures
            func.ensures((old(self).red,), final(self).red),
            func.ensures((old(self).green,), final(self).green),
            func.ensures((old(self).blue,), final(self).blue),
    {
        self.red = func(self.red);
        self.green = func(self.green);
        self.blue = func(self.blue);
    }

    /// Gamma-corrects every channel.
    pub fn gamma_corrected(self) -> (color: Color)
        ensures
            color == self.gamma(),
    {
        let mut color = self;
        color.apply_func(gamma_channel);
        color
    }
}

/// What a sample accumulator stands for: the channel sums of the samples seen
/// so far, and how many there were.
pub struct Tally {
    pub red: nat,
    pub green: nat,
    pub blue: nat,
    pub count: nat,
}

impl Tally {
    /// The tally of no samples.
    pub open spec fn empty() -> Tally {
        Tally { red: 0, green: 0, blue: 0, count: 0 }
    }

    /// The tally with one more sample.
    pub open spec fn with(self, color: Color) -> Tally {
        Tally {
            red: self.red + color.red as nat,
            green: self.green + color.green as nat,
            blue: self.blue + color.blue as nat,
            count: self.count + 1,
        }
    }

    /// The tally of a sequence of samples.
    pub open spec fn of(samples: Seq<Color>) -> Tally
        decreases samples.len(),
    {
        if samples.len() == 0 {
            Tally::empty()
        } else {
            Tally::of(samples.drop_last()).with(samples.last())
        }
    }

    /// No channel sum exceeds what `count` samples can add up to.
    pub open spec fn bounded(self) -> bool {
        &&& self.red <= 255 * self.count
        &&& self.green <= 255 * self.count
        &&& self.blue <= 255 * self.count
    }

    /// The channel-wise mean, rounded down. Meaningful for `count > 0`.
    pub open spec fn mean(self) -> Color
        recommends
            self.count > 0,
            self.bounded(),
    {
        Color {
            red: (self.red / self.count) as u8,
            green: (self.green / self.count) as u8,
            blue: (self.blue / self.count) as u8,
        }
    }
}

/// The tally of any samples is bounded, and counts them.
pub proof fn lemma_tally_of(samples: Seq<Color>)
    ensures
        Tally::of(samples).bounded(),
        Tally::of(samples).count == samples.len(),
    decreases samples.len(),
{
    if samples.len() > 0 {
        lemma_tally_of(samples.drop_last());
    }
}

/// The tally of `n` copies of one colour holds `n` times each channel.
pub proof fn lemma_tally_of_repeated(color: Color, n: nat)
    ensures
        Tally::of(Seq::new(n, |i: int| color)) == (Tally {
            red: n * color.red as nat,
            green: n * color.green as nat,
            blue: n * color.blue as nat,
            count: n,
        }),
    decreases n,
{
    let samples = Seq::new(n, |i: int| color);
    if n > 0 {
        assert(samples.drop_last() =~= Seq::new((n - 1) as nat, |i: int| color));
        lemma_tally_of_repeated(color, (n - 1) as nat);
        assert(n * color.red == (n - 1) * color.red + color.red) by (nonlinear_arith);
        assert(n * color.green == (n - 1) * color.green + color.green) by (nonlinear_arith);
        assert(n * color.blue == (n - 1) * color.blue + color.blue) by (nonlinear_arith);
    } else {
        assert(0 * color.red == 0 && 0 * color.green == 0 && 0 * color.blue == 0);
    }
}

/// Averaging any positive number of copies of one colour gives that colour
/// back, so gamma correction of the average is gamma correction of the colour.
pub proof fn lemma_mean_of_repeated(color: Color, n: nat)
    requires
        n > 0,
    ensures
        Tally::of(Seq::new(n, |i: int| color)).mean() == color,
        Tally::of(Seq::new(n, |i: int| color)).mean().gamma() == color.gamma(),
{
    lemma_tally_of_repeated(color, n);
    lemma_product_quotient(n, color.red as nat);
    lemma_product_quotient(n, color.green as nat);
    lemma_product_quotient(n, color.blue as nat);
}

/// The largest number of samples an accumulator takes: beyond it a channel
/// sum could leave 64 bits.
pub const MAX_SAMPLES: u64 = 72340172838076673;

/// A running sum of colour samples and their count.
#[derive(Debug)]
pub struct ColorAverager {
    red: u64,
    green: u64,
    blue: u64,
    counter: u64,
}

impl View for ColorAverager {
    type V = Tally;

    closed spec fn view(&self) -> Tally {
        Tally {
            red: self.red as nat,
            green: self.green as nat,
            blue: self.blue as nat,
            count: self.counter as nat,
        }
    }
}

impl Clone for ColorAverager {
    fn clone(&self) -> (copy: ColorAverager)
        ensures
            copy@ == self@,
    {
        proof {
            use_type_invariant(self);
        }
        ColorAverager {
            red: self.red,
            green: self.green,
            blue: self.blue,
            counter: self.counter,
        }
    }
}

impl ColorAverager {
    #[verifier::type_invariant]
    closed spec fn inv(self) -> bool {
        &&& self.counter <= MAX_SAMPLES
        &&& self.red <= 255 * self.counter
        &&& self.green <= 255 * self.counter
        &&& self.blue <= 255 * self.counter
    }

    pub fn new() -> (averager: ColorAverager)
        ensures
            averager@ == Tally::empty(),
    {
        ColorAverager { red: 0, green: 0, blue: 0, counter: 0 }
    }

    /// How many samples were added. No channel sum exceeds what that many
    /// samples can add up to.
    pub fn count(&self) -> (n: u64)
        ensures
            n == self@.count,
            n <= MAX_SAMPLES,
            self@.bounded(),
    {
        proof {
            use_type_invariant(self);
        }
        self.counter
    }

    /// The channel-wise mean of the samples, rounded down.
    pub fn average(&self) -> (color: Color)
        requires
            self@.count > 0,
        ensures
            color == self@.mean(),
            color.red == self@.red / self@.count,
            color.green == self@.green / self@.count,
            color.blue == self@.blue / self@.count,
    {
        proof {
            use_type_invariant(self);
            lemma_quotient_bound(self.red as nat, self.counter as nat);
            lemma_quotient_bound(self.green as nat, self.counter as nat);
            lemma_quotient_bound(self.blue as nat, self.counter as nat);
        }
        Color {
            red: (self.red / self.counter) as u8,
            green: (self.green / self.counter) as u8,
            blue: (self.blue / self.counter) as u8,
        }
    }

    /// Takes one more sample.
    pub fn add(&mut self, color: Color)
        requires
            old(self)@.count < MAX_SAMPLES,
        ensures
            final(self)@ == old(self)@.with(color),
    {
        proof {
            use_type_invariant(&*self);
        }
        self.counter += 1;
        self.red += color.red as u64;
        self.green += color.green as u64;
        self.blue += color.blue as u64;
    }
}

/// A product divided by one of its factors is the other factor.
proof fn lemma_product_quotient(n: nat, c: nat)
    requires
        n > 0,
    ensures
        (n * c) / n == c,
{
    assert((n * c) / n == c) by (nonlinear_arith)
        requires
            n > 0,
            c >= 0,
    ;
}

/// A sum of `count` values of at most 255 each, divided by `count`, is at
/// most 255.
proof fn lemma_quotient_bound(sum: nat, count: nat)
    requires
        count > 0,
        sum <= 255 * count,
    ensures
        sum / count <= 255,
{
    assert(sum / count <= 255) by (nonlinear_arith)
        requires
            count > 0,
            sum <= 255 * count,
    ;
}

} // verus!
