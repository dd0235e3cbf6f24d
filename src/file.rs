use vstd::prelude::*;

verus! {

/// A kind of file that a reader or writer handles: a name and its extensions.
#[derive(Debug)]
pub struct FileType {
    pub name: String,
    pub extensions: Vec<String>,
}

impl FileType {
    pub fn new(name: &str, extensions: &[&str]) -> (r: FileType)
        ensures
            r.name@ == name@,
            r.extensions@.len() == extensions@.len(),
            forall|i: int| 0 <= i < extensions@.len() ==> #[trigger] r.extensions@[i]@ == extensions@[i]@,
    {
        let mut list: Vec<String> = Vec::new();
        let mut i: usize = 0;
        while i < extensions.len()
            invariant
                i <= extensions@.len(),
                list@.len() == i,
                forall|j: int| 0 <= j < i ==> #[trigger] list@[j]@ == extensions@[j]@,
            decreases extensions@.len() - i,
        {
            list.push(extensions[i].to_owned());
            i = i + 1;
        }
        FileType { name: name.to_owned(), extensions: list }
    }
}

} // verus!
