use vstd::prelude::*;

verus! {

broadcast use vstd::std_specs::vec::group_vec_axioms;

/// A frame of the extended revision. Byte payloads are borrowed from the
/// buffer that was decoded.
///
/// A map is a list of entries in which no key occurs twice, a set a list in
/// which no item occurs twice; the decoder hands out no other. A double
/// holds its decimal text as it stands on the wire.
#[derive(Debug, PartialEq)]
#[allow(inconsistent_fields)]
pub enum Frame<'a> {
    SimpleString { data: &'a [u8], attributes: Option<Vec<(Frame<'a>, Frame<'a>)>> },
    SimpleError { data: &'a [u8], attributes: Option<Vec<(Frame<'a>, Frame<'a>)>> },
    Boolean { data: bool, attributes: Option<Vec<(Frame<'a>, Frame<'a>)>> },
    Null { data: () },
    Integer { data: i64, attributes: Option<Vec<(Frame<'a>, Frame<'a>)>> },
    Double { data: &'a [u8], attributes: Option<Vec<(Frame<'a>, Frame<'a>)>> },
    BulkString { data: &'a [u8], attributes: Option<Vec<(Frame<'a>, Frame<'a>)>> },
    BulkError { data: &'a [u8], attributes: Option<Vec<(Frame<'a>, Frame<'a>)>> },
    VerbatimString { data: ([u8; 3], &'a [u8]), attributes: Option<Vec<(Frame<'a>, Frame<'a>)>> },
    Array { data: Vec<Frame<'a>>, attributes: Option<Vec<(Frame<'a>, Frame<'a>)>> },
    MapFrame { data: Vec<(Frame<'a>, Frame<'a>)>, attributes: Option<Vec<(Frame<'a>, Frame<'a>)>> },
    SetFrame { data: Vec<Frame<'a>>, attributes: Option<Vec<(Frame<'a>, Frame<'a>)>> },
    Push { data: Vec<Frame<'a>> },
    BigNumber { data: &'a [u8], attributes: Option<Vec<(Frame<'a>, Frame<'a>)>> },
}

/// What a frame holds, apart from its attributes and from where its bytes
/// are stored.
pub enum Body {
    SimpleString(Seq<u8>),
    SimpleError(Seq<u8>),
    Boolean(bool),
    Null,
    Integer(i64),
    Double(Seq<u8>),
    BulkString(Seq<u8>),
    BulkError(Seq<u8>),
    VerbatimString(Seq<u8>, Seq<u8>),
    Array(Seq<FrameView>),
    MapFrame(Seq<(FrameView, FrameView)>),
    SetFrame(Seq<FrameView>),
    Push(Seq<FrameView>),
    BigNumber(Seq<u8>),
}

/// What a frame is: what it holds, and its attributes where it has any.
pub struct FrameView {
    pub body: Body,
    pub attributes: Option<Seq<(FrameView, FrameView)>>,
}

impl<'a> View for Frame<'a> {
    type V = FrameView;

    open spec fn view(&self) -> FrameView
        decreases self,
    {
        match self {
            Frame::SimpleString { data, attributes } => FrameView {
                body: Body::SimpleString(data@),
                attributes: attributes_view(*attributes),
            },
            Frame::SimpleError { data, attributes } => FrameView {
                body: Body::SimpleError(data@),
                attributes: attributes_view(*attributes),
            },
            Frame::Boolean { data, attributes } => FrameView {
                body: Body::Boolean(*data),
                attributes: attributes_view(*attributes),
            },
            Frame::Null { data } => FrameView { body: Body::Null, attributes: None },
            Frame::Integer { data, attributes } => FrameView {
                body: Body::Integer(*data),
                attributes: attributes_view(*attributes),
            },
            Frame::Double { data, attributes } => FrameView {
                body: Body::Double(data@),
                attributes: attributes_view(*attributes),
            },
            Frame::BulkString { data, attributes } => FrameView {
                body: Body::BulkString(data@),
                attributes: attributes_view(*attributes),
            },
            Frame::BulkError { data, attributes } => FrameView {
                body: Body::BulkError(data@),
                attributes: attributes_view(*attributes),
            },
            Frame::VerbatimString { data, attributes } => FrameView {
                body: Body::VerbatimString(data.0@, data.1@),
                attributes: attributes_view(*attributes),
            },
            Frame::Array { data, attributes } => FrameView {
                body: Body::Array(first_views(*data, data.len() as int)),
                attributes: attributes_view(*attributes),
            },
            Frame::MapFrame { data, attributes } => FrameView {
                body: Body::MapFrame(first_pair_views(*data, data.len() as int)),
                attributes: attributes_view(*attributes),
            },
            Frame::SetFrame { data, attributes } => FrameView {
                body: Body::SetFrame(first_views(*data, data.len() as int)),
                attributes: attributes_view(*attributes),
            },
            Frame::Push { data } => FrameView {
                body: Body::Push(first_views(*data, data.len() as int)),
                attributes: None,
            },
            Frame::BigNumber { data, attributes } => FrameView {
                body: Body::BigNumber(data@),
                attributes: attributes_view(*attributes),
            },
        }
    }
}

/// The view of a frame's attributes.
pub open spec fn attributes_view(attributes: Option<Vec<(Frame, Frame)>>) -> Option<
    Seq<(FrameView, FrameView)>,
>
    decreases attributes,
{
    match attributes {
        None => None,
        Some(pairs) => Some(first_pair_views(pairs, pairs.len() as int)),
    }
}

/// The views of the first `n` frames of `items`, in order.
pub open spec fn first_views(items: Vec<Frame>, n: int) -> Seq<FrameView>
    decreases items, n,
{
    if n <= 0 || n > items.len() {
        Seq::empty()
    } else {
        first_views(items, n - 1).push(items[n - 1]@)
    }
}

/// The views of the first `n` entries of `pairs`, in order.
pub open spec fn first_pair_views(pairs: Vec<(Frame, Frame)>, n: int) -> Seq<(FrameView, FrameView)>
    decreases pairs, n,
{
    if n <= 0 || n > pairs.len() {
        Seq::empty()
    } else {
        first_pair_views(pairs, n - 1).push((pairs[n - 1].0@, pairs[n - 1].1@))
    }
}

/// The views of the frames of `items`, in order.
pub open spec fn views(items: Seq<Frame>) -> Seq<FrameView> {
    Seq::new(items.len(), |i: int| items[i]@)
}

/// The views of the entries of `pairs`, in order.
pub open spec fn pair_views(pairs: Seq<(Frame, Frame)>) -> Seq<(FrameView, FrameView)> {
    Seq::new(pairs.len(), |i: int| (pairs[i].0@, pairs[i].1@))
}

/// The view of attributes that are held as a list of entries.
pub open spec fn option_views(attributes: Option<Vec<(Frame, Frame)>>) -> Option<
    Seq<(FrameView, FrameView)>,
> {
    match attributes {
        None => None,
        Some(pairs) => Some(pair_views(pairs@)),
    }
}

/// `first_views` takes the first `n` of the items' views.
pub proof fn lemma_first_views(items: Vec<Frame>, n: int)
    requires
        0 <= n <= items.len(),
    ensures
        first_views(items, n) == views(items@).take(n),
        n == items.len() ==> first_views(items, n) == views(items@),
    decreases n,
{
    if n > 0 {
        lemma_first_views(items, n - 1);
        assert(first_views(items, n) == first_views(items, n - 1).push(items[n - 1]@));
        assert(items[n - 1] == items@[n - 1]);
        assert(views(items@)[n - 1] == items@[n - 1]@);
    }
    assert(first_views(items, n) =~= views(items@).take(n));
    assert(views(items@).take(items.len() as int) =~= views(items@));
}

/// `first_pair_views` takes the first `n` of the entries' views.
pub proof fn lemma_first_pair_views(pairs: Vec<(Frame, Frame)>, n: int)
    requires
        0 <= n <= pairs.len(),
    ensures
        first_pair_views(pairs, n) == pair_views(pairs@).take(n),
        n == pairs.len() ==> first_pair_views(pairs, n) == pair_views(pairs@),
    decreases n,
{
    if n > 0 {
        lemma_first_pair_views(pairs, n - 1);
        assert(first_pair_views(pairs, n) == first_pair_views(pairs, n - 1).push(
            (pairs[n - 1].0@, pairs[n - 1].1@),
        ));
        assert(pairs[n - 1] == pairs@[n - 1]);
        assert(pair_views(pairs@)[n - 1] == (pairs@[n - 1].0@, pairs@[n - 1].1@));
    }
    assert(first_pair_views(pairs, n) =~= pair_views(pairs@).take(n));
    assert(pair_views(pairs@).take(pairs.len() as int) =~= pair_views(pairs@));
}

/// The view of attributes is the list of the views of their entries.
pub proof fn lemma_attributes_view(attributes: Option<Vec<(Frame, Frame)>>)
    ensures
        attributes_view(attributes) == option_views(attributes),
{
    if let Some(pairs) = attributes {
        lemma_first_pair_views(pairs, pairs.len() as int);
    }
}

/// The view of a frame, with each list in it as the list of the views of
/// its members.
pub proof fn lemma_view(frame: Frame)
    ensures
        frame@.attributes == match frame {
            Frame::SimpleString { attributes, .. } => option_views(attributes),
            Frame::SimpleError { attributes, .. } => option_views(attributes),
            Frame::Boolean { attributes, .. } => option_views(attributes),
            Frame::Null { .. } => None,
            Frame::Integer { attributes, .. } => option_views(attributes),
            Frame::Double { attributes, .. } => option_views(attributes),
            Frame::BulkString { attributes, .. } => option_views(attributes),
            Frame::BulkError { attributes, .. } => option_views(attributes),
            Frame::VerbatimString { attributes, .. } => option_views(attributes),
            Frame::Array { attributes, .. } => option_views(attributes),
            Frame::MapFrame { attributes, .. } => option_views(attributes),
            Frame::SetFrame { attributes, .. } => option_views(attributes),
            Frame::Push { .. } => None,
            Frame::BigNumber { attributes, .. } => option_views(attributes),
        },
        frame@.body == match frame {
            Frame::SimpleString { data, .. } => Body::SimpleString(data@),
            Frame::SimpleError { data, .. } => Body::SimpleError(data@),
            Frame::Boolean { data, .. } => Body::Boolean(data),
            Frame::Null { .. } => Body::Null,
            Frame::Integer { data, .. } => Body::Integer(data),
            Frame::Double { data, .. } => Body::Double(data@),
            Frame::BulkString { data, .. } => Body::BulkString(data@),
            Frame::BulkError { data, .. } => Body::BulkError(data@),
            Frame::VerbatimString { data, .. } => Body::VerbatimString(data.0@, data.1@),
            Frame::Array { data, .. } => Body::Array(views(data@)),
            Frame::MapFrame { data, .. } => Body::MapFrame(pair_views(data@)),
            Frame::SetFrame { data, .. } => Body::SetFrame(views(data@)),
            Frame::Push { data } => Body::Push(views(data@)),
            Frame::BigNumber { data, .. } => Body::BigNumber(data@),
        },
{
    match frame {
        Frame::SimpleString { attributes, .. } => lemma_attributes_view(attributes),
        Frame::SimpleError { attributes, .. } => lemma_attributes_view(attributes),
        Frame::Boolean { attributes, .. } => lemma_attributes_view(attributes),
        Frame::Null { .. } => {},
        Frame::Integer { attributes, .. } => lemma_attributes_view(attributes),
        Frame::Double { attributes, .. } => lemma_attributes_view(attributes),
        Frame::BulkString { attributes, .. } => lemma_attributes_view(attributes),
        Frame::BulkError { attributes, .. } => lemma_attributes_view(attributes),
        Frame::VerbatimString { attributes, .. } => lemma_attributes_view(attributes),
        Frame::Array { data, attributes } => {
            lemma_attributes_view(attributes);
            lemma_first_views(data, data.len() as int);
        },
        Frame::MapFrame { data, attributes } => {
            lemma_attributes_view(attributes);
            lemma_first_pair_views(data, data.len() as int);
        },
        Frame::SetFrame { data, attributes } => {
            lemma_attributes_view(attributes);
            lemma_first_views(data, data.len() as int);
        },
        Frame::Push { data } => {
            lemma_first_views(data, data.len() as int);
        },
        Frame::BigNumber { attributes, .. } => lemma_attributes_view(attributes),
    }
}

} // verus!
