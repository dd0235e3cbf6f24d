use vstd::prelude::*;
use crate::layer::Token;

verus! {

/// What a plugin gets when it makes a worker: the table of interned names.
pub struct Context {
    names: Vec<String>,
}

impl Context {
    /// The interned names; the name of token `t` is `names()[t.id - 1]`.
    pub closed spec fn names(&self) -> Seq<Seq<char>> {
        self.names@.map_values(|s: String| s@)
    }

    pub fn new() -> (r: Context)
        ensures
            r.names() == Seq::<Seq<char>>::empty(),
    {
        Context { names: Vec::new() }
    }

    /// The token of `name`, if it has been interned.
    pub fn find_token(&self, name: &str) -> (r: Option<Token>)
        ensures
            match r {
                Some(t) => 1 <= t.id <= self.names().len() && self.names()[t.id - 1] == name@
                    && forall|j: int| 0 <= j < t.id - 1 ==> self.names()[j] != name@,
                None => forall|j: int| 0 <= j < self.names().len() ==> self.names()[j] != name@,
            },
    {
        let target = name.to_owned();
        let mut i: usize = 0;
        while i < self.names.len()
            invariant
                i <= self.names@.len(),
                target@ == name@,
                forall|j: int| 0 <= j < i ==> self.names()[j] != name@,
            decreases self.names@.len() - i,
        {
            if self.names[i] == target {
                return Some(Token { id: i as u64 + 1 });
            }
            i = i + 1;
        }
        None
    }

    /// The token of `name`, interning it first if it is new.
    pub fn get_token(&mut self, name: &str) -> (r: Token)
        requires
            old(self).names().len() < u64::MAX,
        ensures
            1 <= r.id <= final(self).names().len(),
            final(self).names()[r.id - 1] == name@,
            forall|j: int| 0 <= j < r.id - 1 ==> final(self).names()[j] != name@,
            old(self).names().contains(name@) ==> final(self).names() == old(self).names(),
            !old(self).names().contains(name@) ==> final(self).names() == old(self).names().push(
                name@,
            ),
    {
        match self.find_token(name) {
            Some(t) => t,
            None => {
                let ghost before = self.names();
                self.names.push(name.to_owned());
                assert(self.names() =~= before.push(name@));
                Token { id: self.names.len() as u64 }
            },
        }
    }

    /// The name of a token, if it is one of this table's.
    pub fn name_of(&self, token: Token) -> (r: Option<&String>)
        ensures
            match r {
                Some(s) => 1 <= token.id <= self.names().len() && s@ == self.names()[token.id - 1],
                None => token.id == 0 || token.id > self.names().len(),
            },
    {
        if token.id == 0 || token.id > self.names.len() as u64 {
            None
        } else {
            Some(&self.names[(token.id - 1) as usize])
        }
    }
}

} // verus!
