//! Absolute and relative paths made of `/`-separated names.
use vstd::prelude::*;
use vstd::string::StrSliceExecFns;

verus! {

/// A path: whether it starts at the root, and its names in order.
pub struct Path {
    absolute: bool,
    segments: Vec<String>,
}

/// One step of a path.
pub enum Component {
    Root,
    Normal(String),
}

/// The names of a path, as character sequences.
pub open spec fn names_of(v: Seq<String>) -> Seq<Seq<char>> {
    Seq::new(v.len(), |i: int| v[i]@)
}

/// Splitting the first `n` characters of `s` at `/`: the names completed so far and
/// the name being read.
pub open spec fn split_prefix(s: Seq<char>, n: nat) -> (Seq<Seq<char>>, Seq<char>)
    decreases n,
{
    if n == 0 {
        (Seq::empty(), Seq::empty())
    } else {
        let (names, current) = split_prefix(s, (n - 1) as nat);
        if s[n - 1] == '/' {
            (if current.len() > 0 { names.push(current) } else { names }, Seq::empty())
        } else {
            (names, current.push(s[n - 1]))
        }
    }
}

/// The non-empty names between the `/` characters of `s`, in order.
pub open spec fn names_in(s: Seq<char>) -> Seq<Seq<char>> {
    let (names, current) = split_prefix(s, s.len());
    if current.len() > 0 { names.push(current) } else { names }
}

proof fn lemma_names_push(v: Seq<String>, s: String)
    ensures
        names_of(v.push(s)) == names_of(v).push(s@),
{
    assert(names_of(v.push(s)) =~= names_of(v).push(s@));
}

impl Clone for Path {
    fn clone(&self) -> (r: Path)
        ensures
            r.spec_absolute() == self.spec_absolute(),
            r.names() == self.names(),
    {
        let mut names: Vec<String> = Vec::new();
        let mut i: usize = 0;
        while i < self.segments.len()
            invariant
                i <= self.segments.len(),
                names_of(names@) == self.names().subrange(0, i as int),
            decreases self.segments.len() - i,
        {
            let ghost prev = names@;
            names.push(self.segments[i].clone());
            proof { lemma_names_push(prev, self.segments@[i as int]); }
            assert(names_of(names@) =~= self.names().subrange(0, i + 1));
            i = i + 1;
        }
        assert(self.names().subrange(0, self.segments.len() as int) =~= self.names());
        Path { absolute: self.absolute, segments: names }
    }
}

impl Path {
    /// Whether the path starts at the root.
    pub closed spec fn spec_absolute(&self) -> bool {
        self.absolute
    }

    /// The names of the path.
    pub closed spec fn names(&self) -> Seq<Seq<char>> {
        names_of(self.segments@)
    }

    /// The path made of the given names.
    pub fn from_names(absolute: bool, names: Vec<String>) -> (r: Path)
        ensures
            r.spec_absolute() == absolute,
            r.names() == names_of(names@),
    {
        Path { absolute, segments: names }
    }

    /// Reads a path: it is absolute when it starts with `/`, and its names are the
    /// non-empty runs of characters between the `/` characters.
    pub fn from(text: &str) -> (r: Result<Path, ()>)
        ensures
            r is Ok,
            r matches Ok(p) ==> p.spec_absolute() == (text@.len() > 0 && text@[0] == '/')
                && p.names() == names_in(text@),
    {
        let n = text.unicode_len();
        let mut segments: Vec<String> = Vec::new();
        let mut start: usize = 0;
        let mut i: usize = 0;
        while i < n
            invariant
                n == text@.len(),
                start <= i <= n,
                names_of(segments@) == split_prefix(text@, i as nat).0,
                text@.subrange(start as int, i as int) == split_prefix(text@, i as nat).1,
            decreases n - i,
        {
            let c = text.get_char(i);
            if c == '/' {
                if start < i {
                    let name = text.substring_char(start, i).to_owned();
                    segments.push(name);
                    assert(names_of(segments@) =~= split_prefix(text@, (i + 1) as nat).0);
                }
                start = i + 1;
                assert(text@.subrange(start as int, (i + 1) as int) =~= Seq::<char>::empty());
            } else {
                assert(text@.subrange(start as int, (i + 1) as int) =~= text@.subrange(start as int, i as int).push(c));
            }
            i = i + 1;
        }
        if start < n {
            let name = text.substring_char(start, n).to_owned();
            segments.push(name);
            assert(names_of(segments@) =~= names_in(text@));
        } else {
            assert(names_of(segments@) =~= names_in(text@));
        }
        let absolute = n > 0 && text.get_char(0) == '/';
        Ok(Path { absolute, segments })
    }

    /// Whether the path starts at the root.
    pub fn is_absolute(&self) -> (r: bool)
        ensures
            r == self.spec_absolute(),
    {
        self.absolute
    }

    /// The number of names.
    pub fn len(&self) -> (r: usize)
        ensures
            r == self.names().len(),
    {
        self.segments.len()
    }

    /// The `i`-th name.
    pub fn name_at(&self, i: usize) -> (r: &String)
        requires
            i < self.names().len(),
        ensures
            r@ == self.names()[i as int],
    {
        &self.segments[i]
    }

    /// The path without its last name, if it has a name.
    pub fn parent(&self) -> (r: Option<Path>)
        ensures
            r is Some <==> self.names().len() > 0,
            r matches Some(p) ==> p.spec_absolute() == self.spec_absolute()
                && p.names() == self.names().drop_last(),
    {
        let n = self.segments.len();
        if n == 0 {
            None
        } else {
            let mut names: Vec<String> = Vec::new();
            let mut i: usize = 0;
            while i < n - 1
                invariant
                    n == self.segments.len(),
                    n > 0,
                    i <= n - 1,
                    names_of(names@) == self.names().subrange(0, i as int),
                decreases n - 1 - i,
            {
                let ghost prev = names@;
                names.push(self.segments[i].clone());
                proof { lemma_names_push(prev, self.segments@[i as int]); }
                assert(names_of(names@) =~= self.names().subrange(0, i + 1));
                i = i + 1;
            }
            assert(names_of(names@) =~= self.names().drop_last());
            Some(Path { absolute: self.absolute, segments: names })
        }
    }

    /// The last name, or the empty name when there is none.
    pub fn filename(&self) -> (r: String)
        ensures
            self.names().len() > 0 ==> r@ == self.names().last(),
            self.names().len() == 0 ==> r@ == Seq::<char>::empty(),
    {
        let n = self.segments.len();
        if n == 0 {
            String::new()
        } else {
            self.segments[n - 1].clone()
        }
    }

    /// The path with `name` put in front of its names, made absolute.
    pub fn prepend_root(&self, name: &String) -> (r: Path)
        ensures
            r.spec_absolute(),
            r.names() == seq![name@] + self.names(),
    {
        let mut names: Vec<String> = Vec::new();
        names.push(name.clone());
        assert(names_of(names@) =~= seq![name@]);
        let mut i: usize = 0;
        while i < self.segments.len()
            invariant
                i <= self.segments.len(),
                names_of(names@) == seq![name@] + self.names().subrange(0, i as int),
            decreases self.segments.len() - i,
        {
            let ghost prev = names@;
            names.push(self.segments[i].clone());
            proof { lemma_names_push(prev, self.segments@[i as int]); }
            assert(names_of(names@) =~= seq![name@] + self.names().subrange(0, i + 1));
            i = i + 1;
        }
        assert(self.names().subrange(0, self.segments.len() as int) =~= self.names());
        Path { absolute: true, segments: names }
    }

    /// The names from the `from`-th on, as an absolute path.
    pub fn suffix(&self, from: usize) -> (r: Path)
        requires
            from <= self.names().len(),
        ensures
            r.spec_absolute(),
            r.names() == self.names().subrange(from as int, self.names().len() as int),
    {
        let mut names: Vec<String> = Vec::new();
        let mut i: usize = from;
        while i < self.segments.len()
            invariant
                from <= i <= self.segments.len(),
                names_of(names@) == self.names().subrange(from as int, i as int),
            decreases self.segments.len() - i,
        {
            let ghost prev = names@;
            names.push(self.segments[i].clone());
            proof { lemma_names_push(prev, self.segments@[i as int]); }
            assert(names_of(names@) =~= self.names().subrange(from as int, i + 1));
            i = i + 1;
        }
        Path { absolute: true, segments: names }
    }
}

} // verus!
