//! Colors, color budgets, and the per-node set of still-legal colors.

use vstd::prelude::*;
use crate::rand_source::RandomSource;

verus! {

/// One of the four colors a node may receive. "Unassigned" is never a color:
/// it is absence from the coloring map.
#[derive(Clone, Copy, PartialEq, Eq, Structural, Debug, Hash)]
pub enum Color {
    Red,
    Green,
    Blue,
    Yellow,
}

/// The color budget of a solving attempt: how many of the four colors, taken
/// in the fixed order red, green, blue, yellow, are legal at the start.
#[derive(Clone, Copy, PartialEq, Eq, Structural, Debug)]
pub enum NumColors {
    Two,
    Three,
    Four,
}

/// The position of a color in the fixed order red, green, blue, yellow.
pub open spec fn color_index(c: Color) -> int {
    match c {
        Color::Red => 0,
        Color::Green => 1,
        Color::Blue => 2,
        Color::Yellow => 3,
    }
}

/// How many colors a budget allows.
pub open spec fn budget_size(n: NumColors) -> int {
    match n {
        NumColors::Two => 2,
        NumColors::Three => 3,
        NumColors::Four => 4,
    }
}

/// A color is within a budget when its index lies below the budget's size.
pub open spec fn color_in_budget(c: Color, n: NumColors) -> bool {
    color_index(c) < budget_size(n)
}

/// The fresh choice set of a budget: exactly its prefix of the fixed color
/// order is legal.
pub open spec fn budget_choices(n: NumColors) -> Choices {
    match n {
        NumColors::Two => Choices { red: true, green: true, blue: false, yellow: false },
        NumColors::Three => Choices { red: true, green: true, blue: true, yellow: false },
        NumColors::Four => Choices { red: true, green: true, blue: true, yellow: true },
    }
}

impl Color {
    /// The color at a given index in the fixed order.
    pub fn from_index(i: usize) -> (r: Color)
        requires
            i < 4,
        ensures
            color_index(r) == i,
    {
        if i == 0 {
            Color::Red
        } else if i == 1 {
            Color::Green
        } else if i == 2 {
            Color::Blue
        } else {
            Color::Yellow
        }
    }

    /// Draw a color uniformly among the legal colors of `choices`.
    pub fn rand_from_choices(choices: Choices, rng: &mut RandomSource) -> (r: Color)
        requires
            !choices.stuck_spec(),
        ensures
            choices.legal(r),
    {
        let arr = choices.as_arr();
        let mut legal: Vec<Color> = Vec::new();
        let mut i: usize = 0;
        while i < 4
            invariant
                i <= 4,
                arr@ =~= (seq![
                    (choices.red, Color::Red),
                    (choices.green, Color::Green),
                    (choices.blue, Color::Blue),
                    (choices.yellow, Color::Yellow),
                ]),
                forall|k: int| 0 <= k < legal@.len() ==> choices.legal(#[trigger] legal@[k]),
                legal@.len() >= 1 <==> exists|k: int| 0 <= k < i && arr@[k].0,
            decreases 4 - i,
        {
            if arr[i].0 {
                legal.push(arr[i].1);
            }
            i += 1;
        }
        proof {
            if legal@.len() == 0 {
                assert(!arr@[0].0 && !arr@[1].0 && !arr@[2].0 && !arr@[3].0);
                assert(choices.stuck_spec());
            }
        }
        let pick = rng.gen_index(legal.len());
        legal[pick]
    }
}

/// The set of colors still legal for one node. Choice sets only ever shrink
/// during a solving attempt.
#[derive(Clone, Copy, PartialEq, Eq, Structural, Debug)]
pub struct Choices {
    pub red: bool,
    pub green: bool,
    pub blue: bool,
    pub yellow: bool,
}

impl Choices {
    /// Whether a color is still legal.
    pub open spec fn legal(self, c: Color) -> bool {
        match c {
            Color::Red => self.red,
            Color::Green => self.green,
            Color::Blue => self.blue,
            Color::Yellow => self.yellow,
        }
    }

    /// The count of legal colors.
    pub open spec fn amount_spec(self) -> int {
        (if self.red { 1int } else { 0 }) + (if self.green { 1int } else { 0 }) + (if self.blue {
            1int
        } else {
            0
        }) + (if self.yellow { 1int } else { 0 })
    }

    /// No color is legal.
    pub open spec fn stuck_spec(self) -> bool {
        !self.red && !self.green && !self.blue && !self.yellow
    }

    /// The choice set after one color is struck out.
    pub open spec fn remove_spec(self, c: Color) -> Choices {
        match c {
            Color::Red => Choices { red: false, ..self },
            Color::Green => Choices { green: false, ..self },
            Color::Blue => Choices { blue: false, ..self },
            Color::Yellow => Choices { yellow: false, ..self },
        }
    }

    /// Pointwise inclusion: every color legal in `self` is legal in `o`.
    pub open spec fn le(self, o: Choices) -> bool {
        &&& (self.red ==> o.red)
        &&& (self.green ==> o.green)
        &&& (self.blue ==> o.blue)
        &&& (self.yellow ==> o.yellow)
    }

    /// Every legal color lies within the budget.
    pub open spec fn within(self, n: NumColors) -> bool {
        &&& self.blue ==> budget_size(n) >= 3
        &&& self.yellow ==> budget_size(n) >= 4
    }

    /// The fresh choice set of a budget: exactly its prefix of the fixed
    /// color order is legal.
    pub fn new(num_colors: NumColors) -> (r: Choices)
        ensures
            r == budget_choices(num_colors),
            r.red,
            r.green,
            r.blue <==> budget_size(num_colors) >= 3,
            r.yellow <==> budget_size(num_colors) >= 4,
            forall|c: Color| r.legal(c) <==> color_in_budget(c, num_colors),
    {
        match num_colors {
            NumColors::Two => Choices { red: true, green: true, blue: false, yellow: false },
            NumColors::Three => Choices { red: true, green: true, blue: true, yellow: false },
            NumColors::Four => Choices { red: true, green: true, blue: true, yellow: true },
        }
    }

    /// Strike a color out. Removing an already-illegal color changes nothing.
    pub fn remove(&mut self, color: Color)
        ensures
            *final(self) == old(self).remove_spec(color),
    {
        match color {
            Color::Red => self.red = false,
            Color::Green => self.green = false,
            Color::Blue => self.blue = false,
            Color::Yellow => self.yellow = false,
        }
    }

    /// True when no color is legal.
    pub fn stuck(&self) -> (r: bool)
        ensures
            r == self.stuck_spec(),
    {
        !self.red && !self.green && !self.blue && !self.yellow
    }

    /// The number of legal colors.
    pub fn amount(&self) -> (r: usize)
        ensures
            r == self.amount_spec(),
    {
        let mut n: usize = 0;
        if self.red {
            n += 1;
        }
        if self.green {
            n += 1;
        }
        if self.blue {
            n += 1;
        }
        if self.yellow {
            n += 1;
        }
        n
    }

    /// The four colors in fixed order, each with its legality flag.
    pub fn as_arr(&self) -> (r: [(bool, Color); 4])
        ensures
            r@ =~= (seq![
                (self.red, Color::Red),
                (self.green, Color::Green),
                (self.blue, Color::Blue),
                (self.yellow, Color::Yellow),
            ]),
    {
        [
            (self.red, Color::Red),
            (self.green, Color::Green),
            (self.blue, Color::Blue),
            (self.yellow, Color::Yellow),
        ]
    }
}

/// Striking the same color out twice leaves the same choice set as striking
/// it out once: removal is idempotent.
pub proof fn lemma_remove_idempotent(s: Choices, c: Color)
    ensures
        s.remove_spec(c).remove_spec(c) == s.remove_spec(c),
{
}

/// A choice set is stuck exactly when no legal colors remain to be counted.
pub proof fn lemma_stuck_iff_amount_zero(s: Choices)
    ensures
        s.stuck_spec() <==> s.amount_spec() == 0,
{
}

} // verus!
