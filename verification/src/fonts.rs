//! Glyph lookup: a font maps characters to base64-encoded image data.
use vstd::prelude::*;

verus! {

/// What parsing a font description yields: the key/value pairs of a JSON
/// object of single-character keys and string values, sorted by key.
pub uninterp spec fn font_entries_of(s: Seq<char>) -> Option<Seq<(char, Seq<char>)>>;

/// What decoding a base64 text yields, if it is well-formed.
pub uninterp spec fn base64_decoding(s: Seq<char>) -> Option<Seq<u8>>;

/// Relies on serde_json::from_str::<BTreeMap<char, String>>: parses a
/// JSON object with single-character keys; iterating the map hands the
/// entries out sorted by key, each key once. The result depends on the
/// text alone.
#[verifier::external_body]
fn parse_font_json(s: &str) -> (r: Option<Vec<(char, String)>>)
    ensures
        r is None <==> font_entries_of(s@) is None,
        r matches Some(v) ==> (font_entries_of(s@) matches Some(e) && v@.len() == e.len()
            && (forall|i: int|
            0 <= i < e.len() ==> (#[trigger] v@[i]).0 == e[i].0 && v@[i].1@ == e[i].1) && (forall|
            i: int,
            j: int,
        |
            0 <= i < j < e.len() ==> (#[trigger] v@[i]).0 < (#[trigger] v@[j]).0)),
{
    match serde_json::from_str::<std::collections::BTreeMap<char, String>>(s) {
        Err(_) => None,
        Ok(m) => Some(m.into_iter().collect()),
    }
}

/// Relies on base64::decode: standard-alphabet decoding with padding.
/// The result depends on the text alone.
#[verifier::external_body]
fn base64_decode(s: &str) -> (r: Option<Vec<u8>>)
    ensures
        r is None <==> base64_decoding(s@) is None,
        r matches Some(v) ==> (base64_decoding(s@) matches Some(d) && v@ == d),
{
    match base64::decode(s) {
        Err(_) => None,
        Ok(v) => Some(v),
    }
}

/// A font description that could not be parsed.
#[derive(Clone, Copy, Debug, PartialEq, Eq, Structural)]
pub struct FontError {}

/// The default font kind: glyphs parsed from a JSON object that maps each
/// supported character to the base64 of its rendered image.
pub struct Default {
    data: Vec<(char, String)>,
}

impl Default {
    /// The glyph table, sorted by character, each character at most once.
    pub closed spec fn entries(self) -> Seq<(char, Seq<char>)> {
        Seq::new(self.data@.len(), |i: int| (self.data@[i].0, self.data@[i].1@))
    }

    /// Keys are strictly increasing, so each character appears once.
    pub closed spec fn wf(self) -> bool {
        forall|i: int, j: int|
            0 <= i < j < self.data@.len() ==> (#[trigger] self.data@[i]).0
                < (#[trigger] self.data@[j]).0
    }

    /// Builds a font from a JSON object of single-character keys and
    /// base64 string values; it succeeds exactly when the text parses.
    pub fn from_json(json: &str) -> (r: Result<Default, FontError>)
        ensures
            r is Ok <==> font_entries_of(json@) is Some,
            r matches Ok(d) ==> (font_entries_of(json@) matches Some(e) && d.entries() == e
                && d.wf()),
    {
        match parse_font_json(json) {
            None => Err(FontError {  }),
            Some(v) => {
                let d = Default { data: v };
                proof {
                    let e = font_entries_of(json@)->Some_0;
                    assert(d.entries() =~= e);
                }
                Ok(d)
            },
        }
    }

    /// The base64 text of the glyph for `letter`, if the font has one.
    pub fn png_as_base64(&self, letter: char) -> (r: Option<&String>)
        ensures
            r matches Some(s) ==> exists|i: int|
                0 <= i < self.entries().len() && (#[trigger] self.entries()[i]).0 == letter
                    && self.entries()[i].1 == s@,
            r is None ==> forall|i: int|
                0 <= i < self.entries().len() ==> (#[trigger] self.entries()[i]).0 != letter,
    {
        let n = self.data.len();
        let mut i: usize = 0;
        while i < n
            invariant
                i <= n,
                n == self.data@.len(),
                forall|j: int| 0 <= j < i ==> (#[trigger] self.data@[j]).0 != letter,
            decreases n - i,
        {
            if self.data[i].0 == letter {
                proof {
                    assert((self.entries()[i as int]).0 == letter);
                }
                return Some(&self.data[i].1);
            }
            i = i + 1;
        }
        proof {
            assert forall|j: int|
                0 <= j < self.entries().len() implies (#[trigger] self.entries()[j]).0
                != letter by {
                assert(self.data@[j].0 != letter);
            }
        }
        None
    }

    /// The characters the font supports, in order.
    pub fn chars(&self) -> (r: Vec<char>)
        ensures
            r@.len() == self.entries().len(),
            forall|i: int| 0 <= i < r@.len() ==> r@[i] == (#[trigger] self.entries()[i]).0,
    {
        let n = self.data.len();
        let mut r: Vec<char> = Vec::new();
        let mut i: usize = 0;
        while i < n
            invariant
                i <= n,
                n == self.data@.len(),
                r@.len() == i,
                forall|j: int| 0 <= j < i ==> r@[j] == (#[trigger] self.data@[j]).0,
            decreases n - i,
        {
            r.push(self.data[i].0);
            i = i + 1;
        }
        r
    }

    /// The decoded image bytes of the glyph for `letter`: none exactly
    /// when the letter has no glyph or its data does not decode.
    pub fn png(&self, letter: char) -> (r: Option<Vec<u8>>)
        requires
            self.wf(),
        ensures
            r matches Some(v) ==> exists|i: int|
                0 <= i < self.entries().len() && (#[trigger] self.entries()[i]).0 == letter
                    && base64_decoding(self.entries()[i].1) == Some(v@),
            r is None ==> forall|i: int|
                0 <= i < self.entries().len() && (#[trigger] self.entries()[i]).0 == letter
                    ==> base64_decoding(self.entries()[i].1) is None,
    {
        match self.png_as_base64(letter) {
            None => None,
            Some(s) => {
                let r = base64_decode(s.as_str());
                proof {
                    let j = choose|j: int|
                        0 <= j < self.entries().len() && (#[trigger] self.entries()[j]).0 == letter
                            && self.entries()[j].1 == s@;
                    if r is Some {
                        assert(self.entries()[j].0 == letter && base64_decoding(
                            self.entries()[j].1,
                        ) == Some(r->Some_0@));
                    } else {
                        assert forall|i: int|
                            0 <= i < self.entries().len() && (#[trigger] self.entries()[i]).0
                                == letter implies base64_decoding(self.entries()[i].1)
                            is None by {
                            if i != j {
                                if i < j {
                                    assert(self.data@[i].0 < self.data@[j].0);
                                } else {
                                    assert(self.data@[j].0 < self.data@[i].0);
                                }
                            }
                        }
                    }
                }
                r
            },
        }
    }
}

} // verus!
