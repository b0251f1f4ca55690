//! Where a value sits in a document, and the string that names that place.

use vstd::prelude::*;
use vstd::string::*;

verus! {

/// A place in a document: the root, an element of a sequence, or the value
/// under a key of a mapping. Each place but the root borrows its parent, so
/// that a longer path is made from a shorter one without a copy.
#[derive(Clone, Copy)]
pub enum Path<'a> {
    Root,
    Sequence { parent: &'a Path<'a>, index: usize },
    Mapping { parent: &'a Path<'a>, key: &'a str },
}

/// The mathematical value of a [`Path`].
pub enum Location {
    Root,
    Sequence(Box<Location>, nat),
    Mapping(Box<Location>, Seq<char>),
}

/// The character of one decimal digit.
pub open spec fn digit(d: nat) -> char
    recommends
        d < 10,
{
    if d == 0 {
        '0'
    } else if d == 1 {
        '1'
    } else if d == 2 {
        '2'
    } else if d == 3 {
        '3'
    } else if d == 4 {
        '4'
    } else if d == 5 {
        '5'
    } else if d == 6 {
        '6'
    } else if d == 7 {
        '7'
    } else if d == 8 {
        '8'
    } else {
        '9'
    }
}

/// A number in decimal, without sign or leading zeros.
pub open spec fn decimal(n: nat) -> Seq<char>
    decreases n,
{
    if n < 10 {
        seq![digit(n)]
    } else {
        decimal(n / 10).push(digit(n % 10))
    }
}

impl Location {
    /// The string that names this place.
    ///
    /// The root is `/`. A key is appended to its parent's string after a
    /// `/`, except that directly under the root the root's own `/` serves as
    /// the separator. An index is always appended after a `/`, so the
    /// elements of a sequence at the root begin with `//`. Keys are copied as
    /// they are: a `/` or `~` inside a key is not escaped.
    pub open spec fn render(self) -> Seq<char>
        decreases self,
    {
        match self {
            Location::Root => seq!['/'],
            Location::Sequence(parent, index) => parent.render() + seq!['/'] + decimal(index),
            Location::Mapping(parent, key) => match *parent {
                Location::Root => seq!['/'] + key,
                _ => parent.render() + seq!['/'] + key,
            },
        }
    }
}

impl<'a> Path<'a> {
    /// The place that this path denotes.
    pub open spec fn location(&self) -> Location
        decreases self,
    {
        match self {
            Path::Root => Location::Root,
            Path::Sequence { parent, index } => Location::Sequence(
                Box::new(parent.location()),
                *index as nat,
            ),
            Path::Mapping { parent, key } => Location::Mapping(Box::new(parent.location()), key@),
        }
    }

    /// Renders the path as the string under which its position is recorded.
    pub fn to_string(&self) -> (s: String)
        ensures
            s@ == self@.render(),
        decreases self,
    {
        proof {
            reveal_strlit("/");
        }
        match self {
            Path::Root => {
                let s = String::from_str("/");
                assert(s@ =~= seq!['/']);
                s
            },
            Path::Sequence { parent, index } => {
                let mut s = parent.to_string();
                s.append("/");
                push_decimal(&mut s, *index);
                assert(s@ =~= parent@.render() + seq!['/'] + decimal(*index as nat));
                s
            },
            Path::Mapping { parent, key } => match parent {
                Path::Root => {
                    let mut s = String::from_str("/");
                    s.append(key);
                    assert(s@ =~= seq!['/'] + key@);
                    s
                },
                _ => {
                    let mut s = parent.to_string();
                    s.append("/");
                    s.append(key);
                    assert(s@ =~= parent@.render() + seq!['/'] + key@);
                    s
                },
            },
        }
    }
}

impl<'a> View for Path<'a> {
    type V = Location;

    open spec fn view(&self) -> Location {
        self.location()
    }
}

/// The one-character string of a decimal digit.
fn digit_str(d: usize) -> (s: &'static str)
    requires
        d < 10,
    ensures
        s@ == seq![digit(d as nat)],
{
    proof {
        reveal_strlit("0");
        reveal_strlit("1");
        reveal_strlit("2");
        reveal_strlit("3");
        reveal_strlit("4");
        reveal_strlit("5");
        reveal_strlit("6");
        reveal_strlit("7");
        reveal_strlit("8");
        reveal_strlit("9");
    }
    let s = if d == 0 {
        "0"
    } else if d == 1 {
        "1"
    } else if d == 2 {
        "2"
    } else if d == 3 {
        "3"
    } else if d == 4 {
        "4"
    } else if d == 5 {
        "5"
    } else if d == 6 {
        "6"
    } else if d == 7 {
        "7"
    } else if d == 8 {
        "8"
    } else {
        "9"
    };
    assert(s@ =~= seq![digit(d as nat)]);
    s
}

/// Appends a number in decimal to a string.
pub fn push_decimal(s: &mut String, n: usize)
    ensures
        final(s)@ == old(s)@ + decimal(n as nat),
    decreases n,
{
    if n >= 10 {
        push_decimal(s, n / 10);
    }
    s.append(digit_str(n % 10));
    assert(s@ =~= old(s)@ + decimal(n as nat));
}

/// An element of a sequence at the root is named with a doubled separator:
/// the root's own `/`, then the `/` that precedes every index.
pub proof fn lemma_root_element_doubles_separator(index: nat)
    ensures
        Location::Sequence(Box::new(Location::Root), index).render() == seq!['/', '/'] + decimal(
            index,
        ),
{
    assert(Location::Root.render() + seq!['/'] =~= seq!['/', '/']);
}

/// A key directly under the root is named by one `/` and the key.
pub proof fn lemma_root_key_single_separator(key: Seq<char>)
    ensures
        Location::Mapping(Box::new(Location::Root), key).render() == seq!['/'] + key,
{
}

} // verus!
