use vstd::prelude::*;

verus! {

/// How a piece of the title line is emphasised.
#[derive(Clone, Copy, Debug, PartialEq, Eq)]
pub enum Emphasis {
    Plain,
    Bold,
    Underlined,
    BoldUnderlined,
}

/// The emphasis of each piece of the title line, in order.
pub open spec fn header_emphases() -> Seq<Emphasis> {
    seq![
        Emphasis::Bold,
        Emphasis::Plain,
        Emphasis::Bold,
        Emphasis::Plain,
        Emphasis::Bold,
        Emphasis::Plain,
        Emphasis::Plain,
        Emphasis::Plain,
        Emphasis::Underlined,
        Emphasis::BoldUnderlined,
        Emphasis::Underlined,
    ]
}

/// The title line of the application: its name with the initials in bold, the
/// version, and a hint for the help key.
pub struct Header;

impl Header {
    /// The pieces of the title line for program version `version`.
    pub fn segments<'a>(&self, version: &'a str) -> (r: Vec<(&'a str, Emphasis)>)
        ensures
            r@.len() == header_emphases().len(),
            forall|i: int| 0 <= i < r@.len() ==> #[trigger] r@[i].1 == header_emphases()[i],
            r@[0].0 == " D",
            r@[1].0 == "isk ",
            r@[2].0 == "U",
            r@[3].0 == "sage ",
            r@[4].0 == "A",
            r@[5].0 == "nalyzer v",
            r@[6].0 == version,
            r@[7].0 == "    ",
            r@[8].0 == "(press ",
            r@[9].0 == "?",
            r@[10].0 == " for help)",
    {
        let r = vec![
            (" D", Emphasis::Bold),
            ("isk ", Emphasis::Plain),
            ("U", Emphasis::Bold),
            ("sage ", Emphasis::Plain),
            ("A", Emphasis::Bold),
            ("nalyzer v", Emphasis::Plain),
            (version, Emphasis::Plain),
            ("    ", Emphasis::Plain),
            ("(press ", Emphasis::Underlined),
            ("?", Emphasis::BoldUnderlined),
            (" for help)", Emphasis::Underlined),
        ];
        proof {
            assert(r@.len() == 11);
        }
        r
    }
}

} // verus!
