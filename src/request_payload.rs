use vstd::prelude::*;
use crate::task_type::TaskType;

verus! {

#[verifier::external_type_specification]
#[verifier::external_body]
pub struct ExBytesMut(bytes::BytesMut);

/// The bytes that a `BytesMut` buffer holds.
pub uninterp spec fn buffer_contents(b: bytes::BytesMut) -> Seq<u8>;

/// Relies on bytes::BytesMut::new: a buffer of length zero.
#[verifier::external_body]
fn buffer_new() -> (r: bytes::BytesMut)
    ensures
        buffer_contents(r) == Seq::<u8>::empty(),
{
    bytes::BytesMut::new()
}

/// Relies on bytes::BytesMut::extend_from_slice: appends the slice at the end.
/// It reserves room first, which panics when the length would pass
/// `isize::MAX`; the bound in `requires` rules that out.
#[verifier::external_body]
fn buffer_extend(b: &mut bytes::BytesMut, s: &[u8])
    requires
        buffer_contents(*old(b)).len() + s@.len() <= isize::MAX,
    ensures
        buffer_contents(*final(b)) == buffer_contents(*old(b)) + s@,
{
    b.extend_from_slice(s)
}

/// Relies on bytes::BytesMut::len: the number of bytes held.
#[verifier::external_body]
fn buffer_len(b: &bytes::BytesMut) -> (r: usize)
    ensures
        r == buffer_contents(*b).len(),
{
    b.len()
}

/// Relies on bytes::BytesMut's `Deref` to `[u8]`, copied out with `to_vec`:
/// the bytes held, in order.
#[verifier::external_body]
fn buffer_to_vec(b: &bytes::BytesMut) -> (r: Vec<u8>)
    ensures
        r@ == buffer_contents(*b),
{
    b.to_vec()
}

/// Where a frame comes from, and the protocol version it speaks.
#[derive(Debug)]
pub struct Header {
    pub app_id: String,
    pub msg_id: String,
    pub session_id: String,
    pub version: u8,
}

/// Where a frame's chunk stands within its logical message.
#[derive(Debug)]
pub struct Metadata {
    pub name: String,
    pub stream_type: String,
    pub stream_length: u32,
    pub chunk_total: u32,
    pub chunk_index: u32,
}

/// The business part of a message, carried by its first frame.
#[derive(Debug)]
pub struct BusinessData {
    pub task_type: TaskType,
    pub task_params: String,
}

/// What a `RequestData` holds, as values.
pub ghost struct RequestView {
    pub header: Header,
    pub metadata: Metadata,
    pub business_data: Option<BusinessData>,
    pub stream: Seq<u8>,
    pub drained: bool,
}

/// The business data after a frame: the frame's own where it has one, else
/// what was there.
pub open spec fn merged_business(
    prior: Option<BusinessData>,
    incoming: Option<BusinessData>,
) -> Option<BusinessData> {
    if incoming is Some {
        incoming
    } else {
        prior
    }
}

/// The state after appending one frame to a record.
pub open spec fn appended(
    v: RequestView,
    header: Header,
    metadata: Metadata,
    business_data: Option<BusinessData>,
    fragment: Seq<u8>,
) -> RequestView {
    RequestView {
        header,
        metadata,
        business_data: merged_business(v.business_data, business_data),
        stream: v.stream + fragment,
        drained: v.drained,
    }
}

/// A message's working record: the latest header and metadata, the business
/// data, and the bytes gathered so far.
pub struct RequestData {
    header: Header,
    metadata: Metadata,
    business_data: Option<BusinessData>,
    stream: bytes::BytesMut,
    drained: bool,
}

/// A record that nothing has been appended to yet.
pub open spec fn is_fresh(v: RequestView) -> bool {
    &&& v.stream == Seq::<u8>::empty()
    &&& v.business_data is None
    &&& !v.drained
}

impl RequestData {
    pub closed spec fn view(&self) -> RequestView {
        RequestView {
            header: self.header,
            metadata: self.metadata,
            business_data: self.business_data,
            stream: buffer_contents(self.stream),
            drained: self.drained,
        }
    }

    /// An empty record: empty strings, zero counters, no business data, no
    /// bytes.
    pub fn new() -> (r: RequestData)
        ensures
            is_fresh(r@),
            r@.header.app_id@ == Seq::<char>::empty(),
            r@.header.msg_id@ == Seq::<char>::empty(),
            r@.metadata.chunk_index == 0,
            r@.metadata.chunk_total == 0,
            r@.metadata.stream_length == 0,
    {
        RequestData {
            header: Header {
                app_id: String::new(),
                msg_id: String::new(),
                session_id: String::new(),
                version: 0,
            },
            metadata: Metadata {
                name: String::new(),
                stream_type: String::new(),
                stream_length: 0,
                chunk_total: 0,
                chunk_index: 0,
            },
            business_data: None,
            stream: buffer_new(),
            drained: false,
        }
    }

    /// A record made from a decoded frame, with no bytes yet.
    pub fn from_parts(
        header: Header,
        metadata: Metadata,
        business_data: Option<BusinessData>,
    ) -> (r: RequestData)
        ensures
            r@ == (RequestView {
                header,
                metadata,
                business_data,
                stream: Seq::<u8>::empty(),
                drained: false,
            }),
    {
        RequestData { header, metadata, business_data, stream: buffer_new(), drained: false }
    }

    /// Takes the header, metadata and business data out of the record.
    pub fn into_parts(self) -> (r: (Header, Metadata, Option<BusinessData>))
        ensures
            r == (self@.header, self@.metadata, self@.business_data),
    {
        (self.header, self.metadata, self.business_data)
    }

    /// Takes in one frame: its header and metadata replace the stored ones,
    /// its business data replaces the stored one when present, and its
    /// fragment goes at the end of the buffer.
    pub fn append(
        &mut self,
        header: Header,
        metadata: Metadata,
        business_data: Option<BusinessData>,
        fragment: &[u8],
    )
        requires
            !old(self)@.drained,
            old(self)@.stream.len() + fragment@.len() <= isize::MAX,
        ensures
            final(self)@ == appended(old(self)@, header, metadata, business_data, fragment@),
    {
        self.header = header;
        self.metadata = metadata;
        if business_data.is_some() {
            self.business_data = business_data;
        }
        buffer_extend(&mut self.stream, fragment);
    }

    /// Whether the latest frame was the last chunk.
    pub fn is_complete(&self) -> (r: bool)
        ensures
            r == (self@.metadata.chunk_index == self@.metadata.chunk_total),
    {
        self.metadata.chunk_index == self.metadata.chunk_total
    }

    /// Whether the bytes gathered are as many as the metadata declares.
    pub fn length_matches(&self) -> (r: bool)
        ensures
            r == (self@.stream.len() == self@.metadata.stream_length),
    {
        buffer_len(&self.stream) == self.metadata.stream_length as usize
    }

    /// Number of bytes gathered so far.
    pub fn stream_len(&self) -> (r: usize)
        ensures
            r == self@.stream.len(),
    {
        buffer_len(&self.stream)
    }

    /// Hands out the gathered bytes and marks the record drained; a drained
    /// record takes no more frames.
    pub fn take_stream(&mut self) -> (r: Vec<u8>)
        requires
            !old(self)@.drained,
        ensures
            r@ == old(self)@.stream,
            final(self)@ == (RequestView {
                stream: Seq::<u8>::empty(),
                drained: true,
                ..old(self)@
            }),
    {
        let out = buffer_to_vec(&self.stream);
        self.stream = buffer_new();
        self.drained = true;
        out
    }

    pub fn header(&self) -> (r: &Header)
        ensures
            *r == self@.header,
    {
        &self.header
    }

    pub fn metadata(&self) -> (r: &Metadata)
        ensures
            *r == self@.metadata,
    {
        &self.metadata
    }

    pub fn business_data(&self) -> (r: &Option<BusinessData>)
        ensures
            *r == self@.business_data,
    {
        &self.business_data
    }

    pub fn is_drained(&self) -> (r: bool)
        ensures
            r == self@.drained,
    {
        self.drained
    }
}

/// Merges a decoded frame into an existing record and appends the frame's
/// payload to its bytes.
pub fn parser_request_payload(exist_request_data: &mut RequestData, part: RequestData, payload: &[u8])
    requires
        !old(exist_request_data)@.drained,
        old(exist_request_data)@.stream.len() + payload@.len() <= isize::MAX,
    ensures
        final(exist_request_data)@ == appended(
            old(exist_request_data)@,
            part@.header,
            part@.metadata,
            part@.business_data,
            payload@,
        ),
{
    let (header, metadata, business_data) = part.into_parts();
    exist_request_data.append(header, metadata, business_data, payload);
}

/// Appends raw bytes to a record, leaving the rest of it as it was.
pub fn combine_stream(request_data: &mut RequestData, binary_data: &Vec<u8>)
    requires
        !old(request_data)@.drained,
        old(request_data)@.stream.len() + binary_data@.len() <= isize::MAX,
    ensures
        final(request_data)@ == (RequestView {
            stream: old(request_data)@.stream + binary_data@,
            ..old(request_data)@
        }),
{
    buffer_extend(&mut request_data.stream, binary_data.as_slice());
}

} // verus!
