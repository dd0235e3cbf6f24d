use vstd::prelude::*;
use crate::context::Context;
use crate::layer::Token;
use std::ops::Range;

verus! {

/// The bytes that a bit range touches: from the byte holding its first bit to the
/// byte holding its last one.
pub fn bytes_of_bits(bits: &Range<usize>) -> (r: Range<usize>)
    ensures
        r.start == bits.start / 8,
        r.end == (bits.end + 7) / 8,
{
    let end = if bits.end % 8 == 0 {
        bits.end / 8
    } else {
        bits.end / 8 + 1
    };
    bits.start / 8..end
}

/// The class of one field: its id and type tokens, the bits it spans, and how it is
/// shown.
pub struct AttrType {
    id: Token,
    id_name: String,
    bit_range: Range<usize>,
    ty: Token,
    ty_name: String,
    name: String,
    description: String,
    aliases: Vec<String>,
}

impl AttrType {
    pub closed spec fn id_view(&self) -> Seq<char> {
        self.id_name@
    }

    pub closed spec fn ty_view(&self) -> Seq<char> {
        self.ty_name@
    }

    pub closed spec fn bits(&self) -> Range<usize> {
        self.bit_range
    }

    pub closed spec fn name_view(&self) -> Seq<char> {
        self.name@
    }

    pub closed spec fn description_view(&self) -> Seq<char> {
        self.description@
    }

    pub closed spec fn aliases_view(&self) -> Seq<String> {
        self.aliases@
    }

    /// Builds a field class, interning its id and type names in `ctx`.
    pub fn new(
        ctx: &mut Context,
        id: &str,
        ty: &str,
        bit_range: Range<usize>,
        name: &str,
        description: &str,
        aliases: &[&str],
    ) -> (r: AttrType)
        requires
            old(ctx).names().len() + 2 < u64::MAX,
        ensures
            r.id_view() == id@,
            r.ty_view() == ty@,
            r.bits() == bit_range,
            r.name_view() == name@,
            r.description_view() == description@,
            r.aliases_view().len() == aliases@.len(),
            forall|i: int| 0 <= i < aliases@.len() ==> #[trigger] r.aliases_view()[i]@ == aliases@[i]@,
            final(ctx).names()[r.id_token_view().id - 1] == id@,
            final(ctx).names()[r.ty_token_view().id - 1] == ty@,
            final(ctx).names().len() <= old(ctx).names().len() + 2,
            final(ctx).names().subrange(0, old(ctx).names().len() as int) == old(ctx).names(),
    {
        let id_token = ctx.get_token(id);
        let ghost mid = ctx.names();
        let ty_token = ctx.get_token(ty);
        assert(ctx.names()[id_token.id - 1] == id@) by {
            assert(ctx.names() == mid || ctx.names() == mid.push(ty@));
        }
        assert(ctx.names().subrange(0, old(ctx).names().len() as int) =~= old(ctx).names());
        let mut list: Vec<String> = Vec::new();
        let mut i: usize = 0;
        while i < aliases.len()
            invariant
                i <= aliases@.len(),
                list@.len() == i,
                forall|j: int| 0 <= j < i ==> #[trigger] list@[j]@ == aliases@[j]@,
            decreases aliases@.len() - i,
        {
            list.push(aliases[i].to_owned());
            i = i + 1;
        }
        AttrType {
            id: id_token,
            id_name: id.to_owned(),
            bit_range,
            ty: ty_token,
            ty_name: ty.to_owned(),
            name: name.to_owned(),
            description: description.to_owned(),
            aliases: list,
        }
    }

    pub closed spec fn id_token_view(&self) -> Token {
        self.id
    }

    pub closed spec fn ty_token_view(&self) -> Token {
        self.ty
    }

    pub fn id_token(&self) -> (r: Token)
        ensures
            r == self.id_token_view(),
    {
        self.id
    }

    pub fn id_ty(&self) -> (r: Token)
        ensures
            r == self.ty_token_view(),
    {
        self.ty
    }

    pub fn id(&self) -> (r: &str)
        ensures
            r@ == self.id_view(),
    {
        self.id_name.as_str()
    }

    pub fn bit_range(&self) -> (r: Range<usize>)
        ensures
            r == self.bits(),
    {
        self.bit_range.start..self.bit_range.end
    }

    pub fn byte_range(&self) -> (r: Range<usize>)
        ensures
            r.start == self.bits().start / 8,
            r.end == (self.bits().end + 7) / 8,
    {
        bytes_of_bits(&self.bit_range)
    }

    pub fn ty(&self) -> (r: &str)
        ensures
            r@ == self.ty_view(),
    {
        self.ty_name.as_str()
    }

    pub fn name(&self) -> (r: &str)
        ensures
            r@ == self.name_view(),
    {
        self.name.as_str()
    }

    pub fn description(&self) -> (r: &str)
        ensures
            r@ == self.description_view(),
    {
        self.description.as_str()
    }

    pub fn aliases(&self) -> (r: &[String])
        ensures
            r@ == self.aliases_view(),
    {
        self.aliases.as_slice()
    }
}

/// One field of a layer: the bits it covers and its class.
pub struct Attr<'a> {
    bit_range: Range<usize>,
    ty: &'a AttrType,
}

impl<'a> Attr<'a> {
    pub fn new(ty: &'a AttrType, bit_range: Range<usize>) -> (r: Attr<'a>)
        ensures
            r.bits() == bit_range,
            r.class() == *ty,
    {
        Attr { bit_range, ty }
    }

    pub closed spec fn bits(&self) -> Range<usize> {
        self.bit_range
    }

    pub closed spec fn class(&self) -> AttrType {
        *self.ty
    }

    pub fn bit_range(&self) -> (r: Range<usize>)
        ensures
            r == self.bits(),
    {
        self.bit_range.start..self.bit_range.end
    }

    pub fn byte_range(&self) -> (r: Range<usize>)
        ensures
            r.start == self.bits().start / 8,
            r.end == (self.bits().end + 7) / 8,
    {
        bytes_of_bits(&self.bit_range)
    }

    pub fn ty(&self) -> (r: &AttrType)
        ensures
            *r == self.class(),
    {
        self.ty
    }
}

/// A lookup of a field by id and, optionally, by type, with both names interned.
pub struct AttrQuery {
    id: Token,
    ty: Option<Token>,
}

impl AttrQuery {
    pub fn new(ctx: &mut Context, id: &str, ty: Option<&str>) -> (r: AttrQuery)
        requires
            old(ctx).names().len() + 2 < u64::MAX,
        ensures
            final(ctx).names()[r.id_view().id - 1] == id@,
            1 <= r.id_view().id <= final(ctx).names().len(),
            forall|j: int| 0 <= j < r.id_view().id - 1 ==> final(ctx).names()[j] != id@,
            ty is None <==> r.ty_view() is None,
            ty is Some ==> 1 <= r.ty_view()->Some_0.id <= final(ctx).names().len(),
            ty is Some ==> final(ctx).names()[r.ty_view()->Some_0.id - 1] == ty->Some_0@,
            ty is Some ==> forall|j: int|
                0 <= j < r.ty_view()->Some_0.id - 1 ==> final(ctx).names()[j] != ty->Some_0@,
            final(ctx).names().len() <= old(ctx).names().len() + 2,
            final(ctx).names().subrange(0, old(ctx).names().len() as int) == old(ctx).names(),
    {
        let id_token = ctx.get_token(id);
        let ghost mid = ctx.names();
        let ty_token = match ty {
            Some(t) => {
                let token = ctx.get_token(t);
                assert(ctx.names()[id_token.id - 1] == id@) by {
                    assert(ctx.names() == mid || ctx.names() == mid.push(t@));
                }
                assert(forall|j: int| 0 <= j < id_token.id - 1 ==> ctx.names()[j] == mid[j]);
                Some(token)
            },
            None => None,
        };
        proof {
            assert(ctx.names().subrange(0, old(ctx).names().len() as int) =~= old(ctx).names());
        }
        AttrQuery { id: id_token, ty: ty_token }
    }

    pub closed spec fn id_view(&self) -> Token {
        self.id
    }

    pub closed spec fn ty_view(&self) -> Option<Token> {
        self.ty
    }

    pub fn id(&self) -> (r: Token)
        ensures
            r == self.id_view(),
    {
        self.id
    }

    pub fn ty(&self) -> (r: Option<Token>)
        ensures
            r == self.ty_view(),
    {
        self.ty
    }
}

} // verus!
