use vstd::prelude::*;
use crate::context::Context;
use crate::file::FileType;
use crate::writer::Metadata;
use crate::layer::{Layer, Token};

verus! {

/// The eight bytes of `n`, least significant first.
pub open spec fn u64_le(n: u64) -> Seq<u8> {
    Seq::new(8, |i: int| ((n as int / pow256(i)) % 256) as u8)
}

pub open spec fn pow256(i: int) -> int
    decreases i,
{
    if i <= 0 {
        1
    } else {
        256 * pow256(i - 1)
    }
}

/// The encodings of the values of `s`, one after another.
pub open spec fn u64s_le(s: Seq<u64>) -> Seq<u8>
    decreases s.len(),
{
    if s.len() == 0 {
        Seq::empty()
    } else {
        u64s_le(s.drop_last()) + u64_le(s.last())
    }
}

/// The encoding of the export header: the token names, the attribute classes as pairs
/// of token-table positions, and the number of entries.
pub uninterp spec fn header_encoding(
    tokens: Seq<Seq<char>>,
    attrs: Seq<(u64, u64)>,
    entries: u64,
) -> Seq<u8>;

/// Relies on `bincode::serialize` with its default options: a `u64` is written as its
/// eight bytes, least significant first, and writing into a vector cannot fail.
#[verifier::external_body]
fn encode_u64(n: u64) -> (r: Result<Vec<u8>, String>)
    ensures
        r is Ok,
        r->Ok_0@ == u64_le(n),
{
    bincode::serialize(&n).map_err(|e| e.to_string())
}

/// Relies on `bincode::serialize` with its default options on a triple: the fields one
/// after another, a sequence as its length then its items, each integer as eight bytes
/// least significant first. Writing into a vector cannot fail.
#[verifier::external_body]
fn encode_frame_header(id: u64, len: u64, attrs: &Vec<u64>) -> (r: Result<Vec<u8>, String>)
    ensures
        r is Ok,
        r->Ok_0@ == u64_le(id) + u64_le(len) + u64_le(attrs@.len() as u64) + u64s_le(attrs@),
{
    bincode::serialize(&(id, len, attrs)).map_err(|e| e.to_string())
}

/// Relies on `bincode::serialize` with its default options on the header triple; the
/// bytes depend on the values alone. Writing into a vector cannot fail.
#[verifier::external_body]
fn encode_header(tokens: &Vec<String>, attrs: &Vec<(u64, u64)>, entries: u64) -> (r: Result<
    Vec<u8>,
    String,
>)
    ensures
        r is Ok,
        r->Ok_0@ == header_encoding(tokens@.map_values(|s: String| s@), attrs@, entries),
{
    bincode::serialize(&(tokens, attrs, entries)).map_err(|e| e.to_string())
}

/// The string held by field `key` of the JSON object that `text` holds, if it is one and
/// has such a field.
pub uninterp spec fn json_str_field(text: Seq<char>, key: Seq<char>) -> Option<Seq<char>>;

/// Relies on `serde_json::from_str` into a `serde_json::Value`, then `Value::get` and
/// `Value::as_str`: the result depends on the text and the key alone.
#[verifier::external_body]
fn str_field(text: &str, key: &str) -> (r: Option<String>)
    ensures
        match r {
            Some(s) => json_str_field(text@, key@) == Some(s@),
            None => json_str_field(text@, key@) is None,
        },
{
    match serde_json::from_str::<serde_json::Value>(text) {
        Ok(v) => match v.get(key) {
            Some(field) => field.as_str().map(|s| s.to_owned()),
            None => None,
        },
        Err(_) => None,
    }
}

/// The path of the export file, from a writer argument such as `{"file": "out.genet"}`.
pub fn output_path(args: &str) -> (r: Result<String, String>)
    ensures
        match r {
            Ok(path) => json_str_field(args@, seq!['f', 'i', 'l', 'e']) == Some(path@),
            Err(_) => json_str_field(args@, seq!['f', 'i', 'l', 'e']) is None,
        },
{
    let key = "file";
    proof {
        reveal_strlit("file");
        assert(key@ =~= seq!['f', 'i', 'l', 'e']);
    }
    match str_field(args, key) {
        Some(path) => Ok(path),
        None => Err("the argument names no file".to_owned()),
    }
}

/// What the export writer says of itself: its id and the `genet` file type.
pub fn genet_file_metadata() -> (r: Metadata)
    ensures
        r.id@ == seq!['a', 'p', 'p', '.', 'g', 'e', 'n', 'e', 't', '.', 'w', 'r', 'i', 't', 'e', 'r', '.', 'g', 'e', 'n', 'e', 't', '-', 'f', 'i', 'l', 'e'],
        r.name@ == Seq::<char>::empty(),
        r.description@ == Seq::<char>::empty(),
        r.filters@.len() == 1,
        r.filters@[0].name@ == seq!['g', 'e', 'n', 'e', 't'],
        r.filters@[0].extensions@.len() == 1,
        r.filters@[0].extensions@[0]@ == seq!['g', 'e', 'n', 'e', 't'],
{
    let id = "app.genet.writer.genet-file";
    let genet = "genet";
    proof {
        reveal_strlit("app.genet.writer.genet-file");
        reveal_strlit("genet");
    }
    let extensions: [&str; 1] = [genet];
    let file = FileType::new(genet, &extensions);
    let mut filters: Vec<FileType> = Vec::new();
    filters.push(file);
    Metadata { id: id.to_owned(), name: String::new(), description: String::new(), filters }
}

/// One exported frame: the token-table position of its root layer's class, its length
/// and its raw bytes.
pub struct Entry {
    pub id: u64,
    pub len: u64,
    pub data: Vec<u8>,
}

/// `s` with `t` added at the end unless it is there already.
pub open spec fn intern(s: Seq<Token>, t: Token) -> Seq<Token> {
    if s.contains(t) {
        s
    } else {
        s.push(t)
    }
}

/// `s` after interning each of `ts` in order.
pub open spec fn intern_all(s: Seq<Token>, ts: Seq<Token>) -> Seq<Token>
    decreases ts.len(),
{
    if ts.len() == 0 {
        s
    } else {
        intern(intern_all(s, ts.drop_last()), ts.last())
    }
}

/// The tokens of the attribute classes, id then type, class after class.
pub open spec fn attr_tokens(attrs: Seq<(Token, Token)>) -> Seq<Token>
    decreases attrs.len(),
{
    if attrs.len() == 0 {
        Seq::empty()
    } else {
        attr_tokens(attrs.drop_last()).push(attrs.last().0).push(attrs.last().1)
    }
}

/// The bytes of each entry: its length-prefixed header, then its raw bytes.
pub open spec fn entries_bytes(entries: Seq<Entry>) -> Seq<u8>
    decreases entries.len(),
{
    if entries.len() == 0 {
        Seq::empty()
    } else {
        let e = entries.last();
        let header = u64_le(e.id) + u64_le(e.len) + u64_le(0);
        entries_bytes(entries.drop_last()) + u64_le(header.len() as u64) + header + e.data@
    }
}

/// The names of `tokens` in a context's table.
pub open spec fn names_of(names: Seq<Seq<char>>, tokens: Seq<Token>) -> Seq<Seq<char>> {
    tokens.map_values(|t: Token| names[t.id - 1])
}

/// Every token of `tokens` is one of a table of `n` names.
pub open spec fn all_named(n: nat, tokens: Seq<Token>) -> bool {
    forall|i: int| 0 <= i < tokens.len() ==> 1 <= #[trigger] tokens[i].id <= n
}

/// The position of `t` in `s`; with no repeats in `s` there is at most one.
pub open spec fn position_of(s: Seq<Token>, t: Token) -> int {
    choose|i: int| 0 <= i < s.len() && s[i] == t
}

/// The attribute classes as pairs of positions in the token table `tokens`.
pub open spec fn class_positions(tokens: Seq<Token>, attrs: Seq<(Token, Token)>) -> Seq<(u64, u64)> {
    attrs.map_values(
        |p: (Token, Token)| (position_of(tokens, p.0) as u64, position_of(tokens, p.1) as u64),
    )
}

/// The export file: the length-prefixed header, then each entry.
pub open spec fn export_bytes(header: Seq<u8>, entries: Seq<Entry>) -> Seq<u8> {
    u64_le(header.len() as u64) + header + entries_bytes(entries)
}

proof fn lemma_intern_keeps(s: Seq<Token>, t: Token)
    ensures
        intern(s, t).len() >= s.len(),
        intern(s, t).len() <= s.len() + 1,
        forall|i: int| 0 <= i < s.len() ==> intern(s, t)[i] == s[i],
        intern(s, t).contains(t),
{
    if !s.contains(t) {
        assert(s.push(t)[s.len() as int] == t);
    }
}

/// Collects frames for the export file: the token table, the attribute classes and the
/// entries, then writes them out as one byte sequence.
pub struct GenetFileWorker {
    tokens: Vec<Token>,
    attrs: Vec<(Token, Token)>,
    entries: Vec<Entry>,
}

impl GenetFileWorker {
    pub closed spec fn tokens_view(&self) -> Seq<Token> {
        self.tokens@
    }

    pub closed spec fn attrs_view(&self) -> Seq<(Token, Token)> {
        self.attrs@
    }

    pub closed spec fn entries_view(&self) -> Seq<Entry> {
        self.entries@
    }

    pub closed spec fn wf(&self) -> bool {
        &&& self.tokens@.no_duplicates()
        &&& self.tokens@.len() < usize::MAX
    }

    pub fn new() -> (r: GenetFileWorker)
        ensures
            r.wf(),
            r.tokens_view() == Seq::<Token>::empty(),
            r.attrs_view() == Seq::<(Token, Token)>::empty(),
            r.entries_view().len() == 0,
    {
        GenetFileWorker { tokens: Vec::new(), attrs: Vec::new(), entries: Vec::new() }
    }

    /// How many tokens and attribute classes the tables hold.
    pub fn table_sizes(&self) -> (r: (usize, usize))
        ensures
            r.0 == self.tokens_view().len(),
            r.1 == self.attrs_view().len(),
    {
        (self.tokens.len(), self.attrs.len())
    }

    /// The position of `id` in the token table, added at the end if it is new.
    pub fn get_token_index(&mut self, id: Token) -> (r: usize)
        requires
            old(self).wf(),
            old(self).tokens_view().len() + 1 < usize::MAX,
        ensures
            final(self).wf(),
            final(self).tokens_view() == intern(old(self).tokens_view(), id),
            r < final(self).tokens_view().len(),
            final(self).tokens_view()[r as int] == id,
            final(self).attrs_view() == old(self).attrs_view(),
            final(self).entries_view() == old(self).entries_view(),
    {
        let mut i: usize = 0;
        while i < self.tokens.len()
            invariant
                i <= self.tokens@.len(),
                self.tokens == old(self).tokens,
                self.wf(),
                forall|j: int| 0 <= j < i ==> self.tokens@[j] != id,
            decreases self.tokens@.len() - i,
        {
            if self.tokens[i] == id {
                return i;
            }
            i = i + 1;
        }
        assert(!self.tokens@.contains(id));
        self.tokens.push(id);
        assert(self.tokens@.no_duplicates()) by {
            assert forall|a: int, b: int| 0 <= a < b < self.tokens@.len() implies self.tokens@[a]
                != self.tokens@[b] by {
                if b == self.tokens@.len() - 1 {
                    assert(old(self).tokens@.contains(self.tokens@[a]) ==> self.tokens@[a] != id);
                    assert(old(self).tokens@[a] == self.tokens@[a]);
                }
            }
        }
        self.tokens.len() - 1
    }

    /// The position of the class `(id, typ)`, added at the end if it is new.
    pub fn get_attr_index(&mut self, id: Token, typ: Token) -> (r: usize)
        ensures
            r < final(self).attrs_view().len(),
            final(self).attrs_view()[r as int] == (id, typ),
            old(self).attrs_view().contains((id, typ)) ==> final(self).attrs_view() == old(
                self,
            ).attrs_view(),
            !old(self).attrs_view().contains((id, typ)) ==> final(self).attrs_view() == old(
                self,
            ).attrs_view().push((id, typ)),
            final(self).tokens_view() == old(self).tokens_view(),
            final(self).entries_view() == old(self).entries_view(),
    {
        let mut i: usize = 0;
        while i < self.attrs.len()
            invariant
                i <= self.attrs@.len(),
                self.attrs == old(self).attrs,
                forall|j: int| 0 <= j < i ==> self.attrs@[j] != (id, typ),
            decreases self.attrs@.len() - i,
        {
            let (a, b) = self.attrs[i];
            if a == id && b == typ {
                return i;
            }
            i = i + 1;
        }
        self.attrs.push((id, typ));
        self.attrs.len() - 1
    }

    /// Records the root layer of a frame as an entry; a frame with no layer is left out.
    pub fn write(&mut self, index: u32, layers: &[Layer]) -> (r: Result<(), String>)
        requires
            old(self).wf(),
            old(self).tokens_view().len() + 1 < usize::MAX,
        ensures
            r is Ok,
            final(self).wf(),
            final(self).attrs_view() == old(self).attrs_view(),
            layers@.len() == 0 ==> final(self).tokens_view() == old(self).tokens_view()
                && final(self).entries_view() == old(self).entries_view(),
            layers@.len() > 0 ==> {
                let root = layers@[0];
                let e = final(self).entries_view().last();
                &&& final(self).tokens_view() == intern(old(self).tokens_view(), root.id)
                &&& final(self).entries_view().len() == old(self).entries_view().len() + 1
                &&& final(self).entries_view().drop_last() == old(self).entries_view()
                &&& e.id < final(self).tokens_view().len()
                &&& final(self).tokens_view()[e.id as int] == root.id
                &&& e.len == root.data@.len()
                &&& e.data@ == root.data@
            },
    {
        if layers.len() > 0 {
            let root = &layers[0];
            let id = self.get_token_index(root.id);
            let mut data: Vec<u8> = Vec::new();
            let mut i: usize = 0;
            while i < root.data.len()
                invariant
                    i <= root.data@.len(),
                    data@ == root.data@.subrange(0, i as int),
                decreases root.data@.len() - i,
            {
                data.push(root.data[i]);
                i = i + 1;
            }
            assert(data@ == root.data@);
            let ghost before = self.entries@;
            self.entries.push(Entry { id: id as u64, len: root.data.len() as u64, data });
            assert(self.entries@.drop_last() == before);
        }
        Ok(())
    }

    /// Turns the attribute classes into token-table positions, interning their tokens,
    /// then writes the export: the length-prefixed header of token names, classes and
    /// entry count, then each entry. Fails when a token has no name in `ctx`.
    pub fn finish(&mut self, ctx: &Context) -> (r: Result<Vec<u8>, String>)
        requires
            old(self).wf(),
            old(self).tokens_view().len() + 2 * old(self).attrs_view().len() + 2 < usize::MAX,
        ensures
            final(self).wf(),
            final(self).tokens_view() == intern_all(
                old(self).tokens_view(),
                attr_tokens(old(self).attrs_view()),
            ),
            final(self).attrs_view() == old(self).attrs_view(),
            final(self).entries_view() == old(self).entries_view(),
            r is Ok <==> all_named(ctx.names().len(), final(self).tokens_view()),
            r is Ok ==> r->Ok_0@ == export_bytes(
                header_encoding(
                    names_of(ctx.names(), final(self).tokens_view()),
                    class_positions(final(self).tokens_view(), final(self).attrs_view()),
                    final(self).entries_view().len() as u64,
                ),
                final(self).entries_view(),
            ),
    {
        let ghost attrs = self.attrs@;
        let ghost start = self.tokens@;
        let n = self.attrs.len();
        let mut pairs: Vec<(u64, u64)> = Vec::new();
        let mut k: usize = 0;
        while k < n
            invariant
                n == attrs.len(),
                self.attrs@ == attrs,
                self.entries@ == old(self).entries@,
                k <= n,
                self.wf(),
                self.tokens@.len() <= start.len() + 2 * k,
                start.len() + 2 * n + 2 < usize::MAX,
                self.tokens@ == intern_all(start, attr_tokens(attrs.take(k as int))),
                pairs@.len() == k,
                forall|j: int|
                    0 <= j < k ==> {
                        &&& (#[trigger] pairs@[j]).0 < self.tokens@.len()
                        &&& pairs@[j].1 < self.tokens@.len()
                        &&& self.tokens@[pairs@[j].0 as int] == attrs[j].0
                        &&& self.tokens@[pairs@[j].1 as int] == attrs[j].1
                    },
            decreases n - k,
        {
            let (a, b) = self.attrs[k];
            let ghost t0 = self.tokens@;
            let ia = self.get_token_index(a);
            let ghost t1 = self.tokens@;
            let ib = self.get_token_index(b);
            proof {
                lemma_intern_keeps(t0, a);
                lemma_intern_keeps(t1, b);
                let x = attr_tokens(attrs.take(k as int));
                assert(attrs.take(k + 1).drop_last() =~= attrs.take(k as int));
                assert(attr_tokens(attrs.take(k + 1)) == x.push(a).push(b));
                assert(x.push(a).push(b).drop_last() =~= x.push(a));
                assert(x.push(a).drop_last() =~= x);
                assert(intern_all(start, x.push(a)) == intern(intern_all(start, x), a));
                assert(intern_all(start, x.push(a).push(b)) == intern(intern_all(start, x.push(a)), b));
            }
            pairs.push((ia as u64, ib as u64));
            k = k + 1;
        }
        assert(attrs.take(n as int) =~= attrs);
        let ghost tokens = self.tokens@;
        assert(pairs@ =~= class_positions(tokens, attrs)) by {
            assert forall|j: int| 0 <= j < n implies #[trigger] pairs@[j] == class_positions(tokens, attrs)[j] by {
                let pa = position_of(tokens, attrs[j].0);
                let pb = position_of(tokens, attrs[j].1);
                assert(tokens[pairs@[j].0 as int] == attrs[j].0);
                assert(tokens[pa] == attrs[j].0);
                assert(tokens[pb] == attrs[j].1);
                assert(tokens.no_duplicates());
            }
        }
        let mut names: Vec<String> = Vec::new();
        let mut i: usize = 0;
        while i < self.tokens.len()
            invariant
                self.attrs@ == attrs,
                attrs == old(self).attrs@,
                start == old(self).tokens@,
                tokens == intern_all(start, attr_tokens(attrs)),
                self.entries@ == old(self).entries@,
                self.tokens@ == tokens,
                self.wf(),
                i <= tokens.len(),
                names@.len() == i,
                names@.map_values(|s: String| s@) == names_of(ctx.names(), tokens.take(i as int)),
                all_named(ctx.names().len(), tokens.take(i as int)),
            decreases tokens.len() - i,
        {
            match ctx.name_of(self.tokens[i]) {
                Some(name) => {
                    let ghost prev = names@;
                    names.push(name.clone());
                    proof {
                        let t = tokens.take(i + 1);
                        assert(t =~= tokens.take(i as int).push(tokens[i as int]));
                        assert forall|x: int| 0 <= x < i + 1 implies (#[trigger] names@[x])@
                            == ctx.names()[t[x].id - 1] by {
                            if x < i {
                                assert(names@[x] == prev[x]);
                                assert(prev.map_values(|s: String| s@)[x] == names_of(ctx.names(), tokens.take(i as int))[x]);
                            }
                        }
                        assert(names@.map_values(|s: String| s@) =~= names_of(ctx.names(), t));
                        assert(all_named(ctx.names().len(), t)) by {
                            assert forall|x: int| 0 <= x < t.len() implies 1 <= #[trigger] t[x].id <= ctx.names().len() by {
                                if x < i {
                                    assert(t[x] == tokens.take(i as int)[x]);
                                }
                            }
                        }
                    }
                },
                None => {
                    assert(tokens[i as int] == tokens[i as int]);
                    assert(!all_named(ctx.names().len(), tokens));
                    return Err("a token has no name".to_owned());
                },
            }
            i = i + 1;
        }
        assert(tokens.take(tokens.len() as int) =~= tokens);
        let count = self.entries.len() as u64;
        let header = match encode_header(&names, &pairs, count) {
            Ok(h) => h,
            Err(e) => {
                return Err(e);
            },
        };
        let ghost h = header@;
        let mut out = match encode_u64(header.len() as u64) {
            Ok(b) => b,
            Err(e) => {
                return Err(e);
            },
        };
        let mut header = header;
        out.append(&mut header);
        let ghost entries = self.entries@;
        let mut j: usize = 0;
        assert(entries.take(0) =~= Seq::<Entry>::empty());
        assert(out@ =~= u64_le(h.len() as u64) + h + entries_bytes(entries.take(0)));
        while j < self.entries.len()
            invariant
                self.attrs@ == attrs,
                attrs == old(self).attrs@,
                start == old(self).tokens@,
                tokens == intern_all(start, attr_tokens(attrs)),
                self.entries@ == old(self).entries@,
                self.tokens@ == tokens,
                self.wf(),
                all_named(ctx.names().len(), tokens),
                names@.map_values(|s: String| s@) == names_of(ctx.names(), tokens),
                pairs@ == class_positions(tokens, attrs),
                h == header_encoding(names_of(ctx.names(), tokens), class_positions(tokens, attrs), entries.len() as u64),
                self.entries@ == entries,
                j <= entries.len(),
                out@ == u64_le(h.len() as u64) + h + entries_bytes(entries.take(j as int)),
            decreases entries.len() - j,
        {
            let e = &self.entries[j];
            let empty: Vec<u64> = Vec::new();
            let mut frame_header = match encode_frame_header(e.id, e.len, &empty) {
                Ok(b) => b,
                Err(err) => {
                    return Err(err);
                },
            };
            let ghost fh = frame_header@;
            let mut prefix = match encode_u64(frame_header.len() as u64) {
                Ok(b) => b,
                Err(err) => {
                    return Err(err);
                },
            };
            let ghost before = out@;
            out.append(&mut prefix);
            out.append(&mut frame_header);
            let mut b: usize = 0;
            let ghost mid = out@;
            while b < e.data.len()
                invariant
                    b <= e.data@.len(),
                    out@ == mid + e.data@.subrange(0, b as int),
                decreases e.data@.len() - b,
            {
                out.push(e.data[b]);
                b = b + 1;
            }
            proof {
                assert(e.data@.subrange(0, e.data@.len() as int) =~= e.data@);
                assert(u64s_le(Seq::<u64>::empty()) == Seq::<u8>::empty());
                assert(fh =~= u64_le(e.id) + u64_le(e.len) + u64_le(0));
                assert(entries.take(j + 1).drop_last() =~= entries.take(j as int));
                assert(entries.take(j + 1).last() == entries[j as int]);
                assert(out@ =~= u64_le(h.len() as u64) + h + entries_bytes(entries.take(j + 1)));
            }
            j = j + 1;
        }
        assert(entries.take(entries.len() as int) =~= entries);
        Ok(out)
    }
}

} // verus!
