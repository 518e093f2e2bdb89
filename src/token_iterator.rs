//! Configuration for splitting the contents of files into word tokens on a
//! delimiter (a character, a set of characters, or a predicate).

use vstd::prelude::*;

verus! {

/// Errors met while iterating over tokens: a file that cannot be read as
/// text, or a word that is not ASCII. Neither stops the iteration.
pub enum TokenIteratorError {
    UnreadableFile,
    InvalidToken,
}

/// A finished configuration: the delimiter and the paths of the files to read, in order.
pub struct FilesToIterate<D> {
    delim: D,
    files: Vec<String>,
}

impl<D> FilesToIterate<D> {
    pub closed spec fn delim(&self) -> D {
        self.delim
    }

    pub closed spec fn files(&self) -> Seq<Seq<char>> {
        self.files@.map_values(|f: String| f@)
    }
}

/// Collects the delimiter and the files to read.
pub struct FilesToIterateBuilder<D> {
    delim: D,
    files: Vec<String>,
}

impl<D> FilesToIterateBuilder<D> {
    pub closed spec fn delim(&self) -> D {
        self.delim
    }

    pub closed spec fn files(&self) -> Seq<Seq<char>> {
        self.files@.map_values(|f: String| f@)
    }

    /// A builder with the given delimiter and no files.
    pub fn new(delim: D) -> (r: Self)
        ensures
            r.delim() == delim,
            r.files() == Seq::<Seq<char>>::empty(),
    {
        let r = FilesToIterateBuilder { delim, files: Vec::new() };
        proof {
            assert(r.files() =~= Seq::<Seq<char>>::empty());
        }
        r
    }

    /// Adds a file to read after those added before.
    pub fn add(&mut self, path: &str) -> (r: &mut Self)
        ensures
            *final(self) == *final(r),
            r.delim() == old(self).delim(),
            r.files() == old(self).files().push(path@),
    {
        self.files.push(path.to_owned());
        proof {
            assert(self.files() =~= old(self).files().push(path@));
        }
        self
    }

    /// The finished configuration.
    pub fn build(self) -> (r: FilesToIterate<D>)
        ensures
            r.delim() == self.delim(),
            r.files() == self.files(),
    {
        FilesToIterate { delim: self.delim, files: self.files }
    }
}

impl<D: Default> Default for FilesToIterateBuilder<D> {
    fn default() -> (r: Self)
        ensures
            r.files() == Seq::<Seq<char>>::empty(),
    {
        FilesToIterateBuilder::new(D::default())
    }
}

/// A word that a file was split into.
pub struct Token(String);

/// A word that is not ASCII.
pub struct InvalidTokenError;

impl Token {
    pub closed spec fn text(&self) -> Seq<char> {
        self.0@
    }

    /// A token of the word `s`, which must be ASCII.
    pub fn new(s: String) -> (r: Result<Self, InvalidTokenError>)
        ensures
            r is Ok <==> vstd::utf8::is_ascii_chars(s@),
            r matches Ok(t) ==> t.text() == s@,
    {
        if !s.as_str().is_ascii() {
            return Err(InvalidTokenError);
        }
        Ok(Token(s))
    }
}

} // verus!
