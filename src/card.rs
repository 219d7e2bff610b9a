//! Cards: rank, suite and the printed name of a card, with their text forms.
use vstd::prelude::*;
use vstd::string::StrSliceExecFns;
use vstd::string::StringExecFns;

verus! {

/// A playing card. The rank carries the card's value; the name is how the
/// value is printed.
#[derive(Clone, Copy, Debug, PartialEq, Eq, Hash, Structural)]
pub struct Card {
    pub rank: Rank,
    pub suite: Suite,
    pub name: Name,
}

/// The value of a card, from two up to fourteen (the ace).
#[derive(Clone, Copy, Debug, PartialEq, Eq, Hash, Structural)]
pub enum Rank {
    Two,
    Three,
    Four,
    Five,
    Six,
    Seven,
    Eight,
    Nine,
    Ten,
    Eleven,
    Twelve,
    Thirteen,
    Fourteen,
}

/// The printed name of a card value.
#[derive(Clone, Copy, Debug, PartialEq, Eq, Hash, Structural)]
pub enum Name {
    Two,
    Three,
    Four,
    Five,
    Six,
    Seven,
    Eight,
    Nine,
    Ten,
    Jack,
    Queen,
    King,
    Ace,
}

#[derive(Clone, Copy, Debug, PartialEq, Eq, Hash, Structural)]
pub enum Suite {
    Spades,
    Hearts,
    Clubs,
    Diamonds,
}

/// Conversion to the numeric value of a rank or name.
pub trait ToU64 {
    fn to_u64(&self) -> Result<u64, &str>;
}

/// Conversion of a suite letter to a suite.
pub trait ToSuite {
    fn to_suite(&self) -> Result<Suite, String>;
}

/// Conversion of a name text ("2" to "10", "J", "Q", "K", "A") to a name.
pub trait ToName {
    fn to_name(&self) -> Result<Name, String>;
}

impl Rank {
    /// The numeric value of the rank, 2 to 14.
    pub open spec fn value(self) -> int {
        match self {
            Rank::Two => 2,
            Rank::Three => 3,
            Rank::Four => 4,
            Rank::Five => 5,
            Rank::Six => 6,
            Rank::Seven => 7,
            Rank::Eight => 8,
            Rank::Nine => 9,
            Rank::Ten => 10,
            Rank::Eleven => 11,
            Rank::Twelve => 12,
            Rank::Thirteen => 13,
            Rank::Fourteen => 14,
        }
    }

    /// The name printed for this rank.
    pub open spec fn spec_name(self) -> Name {
        match self {
            Rank::Two => Name::Two,
            Rank::Three => Name::Three,
            Rank::Four => Name::Four,
            Rank::Five => Name::Five,
            Rank::Six => Name::Six,
            Rank::Seven => Name::Seven,
            Rank::Eight => Name::Eight,
            Rank::Nine => Name::Nine,
            Rank::Ten => Name::Ten,
            Rank::Eleven => Name::Jack,
            Rank::Twelve => Name::Queen,
            Rank::Thirteen => Name::King,
            Rank::Fourteen => Name::Ace,
        }
    }

    pub fn to_name(&self) -> (r: Result<Name, &str>)
        ensures
            r == Ok::<Name, &str>(self.spec_name()),
    {
        match self {
            Rank::Two => Ok(Name::Two),
            Rank::Three => Ok(Name::Three),
            Rank::Four => Ok(Name::Four),
            Rank::Five => Ok(Name::Five),
            Rank::Six => Ok(Name::Six),
            Rank::Seven => Ok(Name::Seven),
            Rank::Eight => Ok(Name::Eight),
            Rank::Nine => Ok(Name::Nine),
            Rank::Ten => Ok(Name::Ten),
            Rank::Eleven => Ok(Name::Jack),
            Rank::Twelve => Ok(Name::Queen),
            Rank::Thirteen => Ok(Name::King),
            Rank::Fourteen => Ok(Name::Ace),
        }
    }
}

impl ToU64 for Rank {
    fn to_u64(&self) -> (r: Result<u64, &str>)
        ensures
            r matches Ok(v) && v == self.value(),
    {
        match self {
            Rank::Two => Ok(2),
            Rank::Three => Ok(3),
            Rank::Four => Ok(4),
            Rank::Five => Ok(5),
            Rank::Six => Ok(6),
            Rank::Seven => Ok(7),
            Rank::Eight => Ok(8),
            Rank::Nine => Ok(9),
            Rank::Ten => Ok(10),
            Rank::Eleven => Ok(11),
            Rank::Twelve => Ok(12),
            Rank::Thirteen => Ok(13),
            Rank::Fourteen => Ok(14),
        }
    }
}


impl Name {
    /// The numeric value of the name, 2 to 14.
    pub open spec fn value(self) -> int {
        self.spec_rank().value()
    }

    /// The rank this name prints.
    pub open spec fn spec_rank(self) -> Rank {
        match self {
            Name::Two => Rank::Two,
            Name::Three => Rank::Three,
            Name::Four => Rank::Four,
            Name::Five => Rank::Five,
            Name::Six => Rank::Six,
            Name::Seven => Rank::Seven,
            Name::Eight => Rank::Eight,
            Name::Nine => Rank::Nine,
            Name::Ten => Rank::Ten,
            Name::Jack => Rank::Eleven,
            Name::Queen => Rank::Twelve,
            Name::King => Rank::Thirteen,
            Name::Ace => Rank::Fourteen,
        }
    }

    /// The text of the name: a number from 2 to 10, or J, Q, K, A.
    pub open spec fn text(self) -> Seq<char> {
        match self {
            Name::Two => seq!['2'],
            Name::Three => seq!['3'],
            Name::Four => seq!['4'],
            Name::Five => seq!['5'],
            Name::Six => seq!['6'],
            Name::Seven => seq!['7'],
            Name::Eight => seq!['8'],
            Name::Nine => seq!['9'],
            Name::Ten => seq!['1', '0'],
            Name::Jack => seq!['J'],
            Name::Queen => seq!['Q'],
            Name::King => seq!['K'],
            Name::Ace => seq!['A'],
        }
    }

    pub fn to_rank(&self) -> (r: Result<Rank, &str>)
        ensures
            r == Ok::<Rank, &str>(self.spec_rank()),
    {
        match self {
            Name::Two => Ok(Rank::Two),
            Name::Three => Ok(Rank::Three),
            Name::Four => Ok(Rank::Four),
            Name::Five => Ok(Rank::Five),
            Name::Six => Ok(Rank::Six),
            Name::Seven => Ok(Rank::Seven),
            Name::Eight => Ok(Rank::Eight),
            Name::Nine => Ok(Rank::Nine),
            Name::Ten => Ok(Rank::Ten),
            Name::Jack => Ok(Rank::Eleven),
            Name::Queen => Ok(Rank::Twelve),
            Name::King => Ok(Rank::Thirteen),
            Name::Ace => Ok(Rank::Fourteen),
        }
    }

    pub fn to_string(&self) -> (r: Result<String, &str>)
        ensures
            r matches Ok(s) && s@ == self.text(),
    {
        let lit = match self {
            Name::Two => "2",
            Name::Three => "3",
            Name::Four => "4",
            Name::Five => "5",
            Name::Six => "6",
            Name::Seven => "7",
            Name::Eight => "8",
            Name::Nine => "9",
            Name::Ten => "10",
            Name::Jack => "J",
            Name::Queen => "Q",
            Name::King => "K",
            Name::Ace => "A",
        };
        proof {
            reveal_strlit("2");
            reveal_strlit("3");
            reveal_strlit("4");
            reveal_strlit("5");
            reveal_strlit("6");
            reveal_strlit("7");
            reveal_strlit("8");
            reveal_strlit("9");
            reveal_strlit("10");
            reveal_strlit("J");
            reveal_strlit("Q");
            reveal_strlit("K");
            reveal_strlit("A");
        }
        let s = String::from_str(lit);
        assert(s@ =~= self.text());
        Ok(s)
    }
}

impl ToU64 for Name {
    fn to_u64(&self) -> (r: Result<u64, &str>)
        ensures
            r matches Ok(v) && v == self.value(),
    {
        match self {
            Name::Two => Ok(2),
            Name::Three => Ok(3),
            Name::Four => Ok(4),
            Name::Five => Ok(5),
            Name::Six => Ok(6),
            Name::Seven => Ok(7),
            Name::Eight => Ok(8),
            Name::Nine => Ok(9),
            Name::Ten => Ok(10),
            Name::Jack => Ok(11),
            Name::Queen => Ok(12),
            Name::King => Ok(13),
            Name::Ace => Ok(14),
        }
    }
}

/// The suite a letter stands for: s, h, c or d.
pub open spec fn suite_of_letter(c: char) -> Option<Suite> {
    if c == 's' {
        Some(Suite::Spades)
    } else if c == 'h' {
        Some(Suite::Hearts)
    } else if c == 'c' {
        Some(Suite::Clubs)
    } else if c == 'd' {
        Some(Suite::Diamonds)
    } else {
        None
    }
}

/// The name a text stands for, if any.
pub open spec fn name_of_text(t: Seq<char>) -> Option<Name> {
    if t == seq!['2'] {
        Some(Name::Two)
    } else if t == seq!['3'] {
        Some(Name::Three)
    } else if t == seq!['4'] {
        Some(Name::Four)
    } else if t == seq!['5'] {
        Some(Name::Five)
    } else if t == seq!['6'] {
        Some(Name::Six)
    } else if t == seq!['7'] {
        Some(Name::Seven)
    } else if t == seq!['8'] {
        Some(Name::Eight)
    } else if t == seq!['9'] {
        Some(Name::Nine)
    } else if t == seq!['1', '0'] {
        Some(Name::Ten)
    } else if t == seq!['J'] {
        Some(Name::Jack)
    } else if t == seq!['Q'] {
        Some(Name::Queen)
    } else if t == seq!['K'] {
        Some(Name::King)
    } else if t == seq!['A'] {
        Some(Name::Ace)
    } else {
        None
    }
}

impl ToSuite for char {
    fn to_suite(&self) -> (r: Result<Suite, String>)
        ensures
            suite_of_letter(*self) matches Some(s) ==> r == Ok::<Suite, String>(s),
            suite_of_letter(*self) is None ==> r is Err,
    {
        match *self {
            's' => Ok(Suite::Spades),
            'h' => Ok(Suite::Hearts),
            'c' => Ok(Suite::Clubs),
            'd' => Ok(Suite::Diamonds),
            _ => Err(String::from_str("Unknown Suite!")),
        }
    }
}

impl ToName for String {
    fn to_name(&self) -> (r: Result<Name, String>)
        ensures
            name_of_text(self@) matches Some(n) ==> r == Ok::<Name, String>(n),
            name_of_text(self@) is None ==> r is Err,
    {
        let t = self.as_str();
        let n = t.unicode_len();
        if n == 1 {
            let c = t.get_char(0);
            assert(self@ =~= seq![c]);
            match c {
                '2' => { return Ok(Name::Two); },
                '3' => { return Ok(Name::Three); },
                '4' => { return Ok(Name::Four); },
                '5' => { return Ok(Name::Five); },
                '6' => { return Ok(Name::Six); },
                '7' => { return Ok(Name::Seven); },
                '8' => { return Ok(Name::Eight); },
                '9' => { return Ok(Name::Nine); },
                'J' => { return Ok(Name::Jack); },
                'Q' => { return Ok(Name::Queen); },
                'K' => { return Ok(Name::King); },
                'A' => { return Ok(Name::Ace); },
                _ => {},
            }
        } else if n == 2 {
            let c0 = t.get_char(0);
            let c1 = t.get_char(1);
            assert(self@ =~= seq![c0, c1]);
            if c0 == '1' && c1 == '0' {
                return Ok(Name::Ten);
            }
        }
        Err(String::from_str("Unknown Name!"))
    }
}

impl Suite {
    /// The symbol printed for the suite.
    pub open spec fn symbol(self) -> char {
        match self {
            Suite::Spades => '\u{2664}',
            Suite::Hearts => '\u{2661}',
            Suite::Clubs => '\u{2667}',
            Suite::Diamonds => '\u{2662}',
        }
    }

    pub fn to_char(&self) -> (r: Result<char, String>)
        ensures
            r == Ok::<char, String>(self.symbol()),
    {
        match self {
            Suite::Spades => Ok('\u{2664}'),
            Suite::Hearts => Ok('\u{2661}'),
            Suite::Clubs => Ok('\u{2667}'),
            Suite::Diamonds => Ok('\u{2662}'),
        }
    }
}


/// Cards are ordered by rank alone: two cards of one rank compare equal in
/// this order whatever their suites.
impl PartialOrd for Card {
    fn partial_cmp(&self, other: &Card) -> (r: Option<core::cmp::Ordering>) {
        let a = match self.rank.to_u64() {
            Ok(v) => v,
            Err(_) => 0,
        };
        let b = match other.rank.to_u64() {
            Ok(v) => v,
            Err(_) => 0,
        };
        if a < b {
            Some(core::cmp::Ordering::Less)
        } else if a > b {
            Some(core::cmp::Ordering::Greater)
        } else {
            Some(core::cmp::Ordering::Equal)
        }
    }
}

impl vstd::std_specs::cmp::PartialOrdSpecImpl for Card {
    open spec fn obeys_partial_cmp_spec() -> bool {
        true
    }

    open spec fn partial_cmp_spec(&self, other: &Card) -> Option<core::cmp::Ordering> {
        if self.value() < other.value() {
            Some(core::cmp::Ordering::Less)
        } else if self.value() > other.value() {
            Some(core::cmp::Ordering::Greater)
        } else {
            Some(core::cmp::Ordering::Equal)
        }
    }
}

impl Card {
    /// The card a text names: a name text followed by a suite letter
    /// ("10s", "Qh"), when there is one.
    pub open spec fn parse(t: Seq<char>) -> Option<Card> {
        if 2 <= t.len() <= 3 && suite_of_letter(t.last()) is Some && name_of_text(
            t.drop_last(),
        ) is Some {
            let name = name_of_text(t.drop_last()).unwrap();
            Some(Card { rank: name.spec_rank(), suite: suite_of_letter(t.last()).unwrap(), name })
        } else {
            None
        }
    }

    /// The rank and the name of the card agree.
    pub open spec fn wf(self) -> bool {
        self.name == self.rank.spec_name()
    }

    /// The numeric value of the card's rank.
    pub open spec fn value(self) -> int {
        self.rank.value()
    }

    /// Creates a `Card` from a string representation.
    pub fn from_string(mut input: String) -> (r: Result<Card, String>)
        ensures
            !(2 <= input@.len() <= 3) ==> (r matches Err(e) && e@
                == "Card formatting is incorrect: "@ + input@),
            2 <= input@.len() <= 3 && suite_of_letter(input@.last()) is None ==> (r matches Err(e)
                && e@ == seq![input@.last()] + " does not match any known suite!"@),
            2 <= input@.len() <= 3 && suite_of_letter(input@.last()) is Some && name_of_text(
                input@.drop_last(),
            ) is None ==> (r matches Err(e) && e@
                == input@.drop_last() + " does not match any known card name!"@),
            Card::parse(input@) matches Some(c) ==> r == Ok::<Card, String>(c),
            r matches Ok(c) ==> c.wf(),
    {
        let t = input.as_str();
        let n = t.unicode_len();
        if n < 2 || n > 3 {
            let mut e = String::from_str("Card formatting is incorrect: ");
            e.append(t);
            return Err(e);
        }
        let suite_char = t.get_char(n - 1);
        let suite = match suite_char.to_suite() {
            Ok(s) => s,
            Err(_) => {
                let mut e = String::from_str(t.substring_char(n - 1, n));
                e.append(" does not match any known suite!");
                assert(t@.subrange(n - 1, n as int) =~= seq![input@.last()]);
                return Err(e);
            },
        };
        let name_string = String::from_str(t.substring_char(0, n - 1));
        assert(name_string@ =~= input@.drop_last());
        let name = match name_string.to_name() {
            Ok(nm) => nm,
            Err(_) => {
                let mut e = String::from_str(name_string.as_str());
                e.append(" does not match any known card name!");
                return Err(e);
            },
        };
        let rank = match name.to_rank() {
            Ok(rk) => rk,
            Err(_) => {
                let mut e = String::from_str(name_string.as_str());
                e.append(" does not match any known card name!");
                return Err(e);
            },
        };
        proof {
            let nm = name;
            assert(nm.spec_rank().spec_name() == nm) by {
                match nm {
                    _ => {},
                }
            }
        }
        Ok(Card { rank, suite, name })
    }

    /// The text of the card: its name followed by its suite symbol.
    pub open spec fn text(self) -> Seq<char> {
        self.name.text().push(self.suite.symbol())
    }

    /// Converts a `Card` to its string representation.
    pub fn to_string(&self) -> (r: Result<String, String>)
        ensures
            r matches Ok(s) && s@ == self.text(),
    {
        let mut name_string = match self.name.to_string() {
            Ok(s) => s,
            Err(_) => {
                return Err(String::from_str("Unknown Name!"));
            },
        };
        let symbol = match self.suite {
            Suite::Spades => "\u{2664}",
            Suite::Hearts => "\u{2661}",
            Suite::Clubs => "\u{2667}",
            Suite::Diamonds => "\u{2662}",
        };
        proof {
            reveal_strlit("\u{2664}");
            reveal_strlit("\u{2661}");
            reveal_strlit("\u{2667}");
            reveal_strlit("\u{2662}");
        }
        name_string.append(symbol);
        assert(name_string@ =~= self.text());
        Ok(name_string)
    }
}

} // verus!
