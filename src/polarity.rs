use vstd::prelude::*;

verus! {

/// Whether an attendance event is an arrival or a departure.
#[derive(Debug, Clone, Copy, PartialEq, Eq, Structural)]
pub enum Polarity {
    In,
    Out,
}

/// The polarity that alternates with `p`.
pub open spec fn flip(p: Polarity) -> Polarity {
    match p {
        Polarity::In => Polarity::Out,
        Polarity::Out => Polarity::In,
    }
}

/// The label under which a polarity is stored and shown.
pub open spec fn label_of(p: Polarity) -> Seq<char> {
    match p {
        Polarity::In => seq!['I', 'n'],
        Polarity::Out => seq!['O', 'u', 't'],
    }
}

impl Polarity {
    /// The other polarity.
    pub fn opposite(self) -> (r: Polarity)
        ensures
            r == flip(self),
    {
        match self {
            Polarity::In => Polarity::Out,
            Polarity::Out => Polarity::In,
        }
    }

    /// The stored label: `In` or `Out`.
    pub fn label(self) -> (r: &'static str)
        ensures
            r@ == label_of(self),
    {
        match self {
            Polarity::In => {
                proof {
                    reveal_strlit("In");
                }
                "In"
            },
            Polarity::Out => {
                proof {
                    reveal_strlit("Out");
                }
                "Out"
            },
        }
    }

    /// Reads a stored label; anything but `In` or `Out` is not a polarity.
    pub fn from_label(s: &str) -> (r: Option<Polarity>)
        ensures
            r == Some(Polarity::In) <==> s@ == label_of(Polarity::In),
            r == Some(Polarity::Out) <==> s@ == label_of(Polarity::Out),
            r is None <==> (s@ != label_of(Polarity::In) && s@ != label_of(Polarity::Out)),
    {
        let n = s.unicode_len();
        if n == 2 && s.get_char(0) == 'I' && s.get_char(1) == 'n' {
            assert(s@ =~= label_of(Polarity::In));
            Some(Polarity::In)
        } else if n == 3 && s.get_char(0) == 'O' && s.get_char(1) == 'u' && s.get_char(2) == 't' {
            assert(s@ =~= label_of(Polarity::Out));
            Some(Polarity::Out)
        } else {
            proof {
                if s@ == label_of(Polarity::In) {
                    assert(s@[0] == 'I' && s@[1] == 'n');
                }
                if s@ == label_of(Polarity::Out) {
                    assert(s@[0] == 'O' && s@[1] == 'u' && s@[2] == 't');
                }
            }
            None
        }
    }
}

} // verus!
