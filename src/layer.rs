use vstd::prelude::*;

verus! {

/// An interned name: two tokens are the same name exactly when their numbers are equal.
#[derive(Clone, Copy, PartialEq, Eq, Structural, Debug)]
pub struct Token {
    pub id: u64,
}

impl Token {
    pub fn new(id: u64) -> (r: Token)
        ensures
            r.id == id,
    {
        Token { id }
    }

    /// The token that names nothing.
    pub fn null() -> (r: Token)
        ensures
            r.id == 0,
    {
        Token { id: 0 }
    }
}

/// One protocol segment of a frame: the token of its class and the bytes it covers.
#[derive(Clone, Debug)]
pub struct Layer {
    pub id: Token,
    pub data: Vec<u8>,
}

impl Layer {
    pub fn new(id: Token, data: Vec<u8>) -> (r: Layer)
        ensures
            r.id == id,
            r.data@ == data@,
    {
        Layer { id, data }
    }
}

/// The layers decoded so far for one frame, outermost protocol first.
#[derive(Debug)]
pub struct LayerStack {
    pub layers: Vec<Layer>,
}

impl LayerStack {
    /// A stack that holds only the root layer.
    pub fn new(root: Layer) -> (r: LayerStack)
        ensures
            r.layers@ == seq![root],
    {
        let mut layers: Vec<Layer> = Vec::new();
        layers.push(root);
        LayerStack { layers }
    }

    /// Pushes a decoded child layer on top of the stack.
    pub fn add_child(&mut self, layer: Layer)
        ensures
            final(self).layers@ == old(self).layers@.push(layer),
    {
        self.layers.push(layer);
    }

    /// The innermost layer decoded so far.
    pub fn top(&self) -> (r: Option<&Layer>)
        ensures
            self.layers@.len() == 0 ==> r.is_none(),
            self.layers@.len() > 0 ==> r == Some(&self.layers@.last()),
    {
        if self.layers.len() == 0 {
            None
        } else {
            Some(&self.layers[self.layers.len() - 1])
        }
    }

    /// The root layer.
    pub fn bottom(&self) -> (r: Option<&Layer>)
        ensures
            self.layers@.len() == 0 ==> r.is_none(),
            self.layers@.len() > 0 ==> r == Some(&self.layers@[0]),
    {
        if self.layers.len() == 0 {
            None
        } else {
            Some(&self.layers[0])
        }
    }

    pub fn len(&self) -> (r: usize)
        ensures
            r == self.layers@.len(),
    {
        self.layers.len()
    }
}

/// A captured packet: its sequence number in the store and its decoded layers,
/// the raw root layer first.
#[derive(Debug)]
pub struct Frame {
    pub index: u32,
    pub layers: Vec<Layer>,
}

impl Frame {
    pub fn new(index: u32, root: Layer) -> (r: Frame)
        ensures
            r.index == index,
            r.layers@ == seq![root],
    {
        let mut layers: Vec<Layer> = Vec::new();
        layers.push(root);
        Frame { index, layers }
    }

    pub fn index(&self) -> (r: u32)
        ensures
            r == self.index,
    {
        self.index
    }
}

} // verus!
