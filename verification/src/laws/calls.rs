//! What holds of images that one encoder writes, one after the other.

use crate::encoder::directory::{sorted, Field, Fields};
use crate::encoder::layout::header_len;
use crate::encoder::value::field_of;
use crate::encoder::{all_decode, all_encoded, pieces, EncoderState, Outcome};
use crate::laws::file::{
    all_representable, directory_offset, has_written, law_directories_are_found,
    law_image_data_is_read_back, law_image_is_appended, law_images_are_read_back, lemma_body_len,
    lemma_directory_offset_prefix, lemma_entry_stays, lemma_header_len, stream, tells_strips, Image,
};
use crate::laws::image::{
    describes, entry_is, law_begun_image_is_described, law_tags_hold_for_later_images, sets_tag,
};
use crate::reader::{
    find, lemma_find, read_directory, read_directory_offset, read_image, read_next, read_strips,
};
use crate::tags::{PhotometricInterpretation, Tag};
use vstd::prelude::*;

verus! {

/// A call that writes an image: the state of the encoder before it, and its arguments.
pub struct Call {
    pub state: EncoderState,
    pub width: u32,
    pub height: u32,
    pub interpretation: PhotometricInterpretation,
    pub data: Seq<u8>,
}

impl Call {
    /// The state once the image has been begun.
    #[verifier::opaque]
    pub open spec fn begun(self) -> EncoderState {
        self.state.begun(self.width, self.height, self.interpretation)
    }

    /// How many bytes of the image make a strip.
    pub open spec fn size(self) -> nat {
        self.state.strip_bytes(self.width, self.interpretation)
    }

    /// The image that is written.
    #[verifier::opaque]
    pub open spec fn image(self) -> Image {
        Image {
            fields: self.begun().fields,
            chunks: all_encoded(self.state.compression, pieces(self.data, self.size())),
        }
    }

    /// What the call does, with the stream at `position`.
    #[verifier::opaque]
    pub open spec fn outcome(self, position: u64) -> Outcome {
        self.state.after_write_image(
            self.width,
            self.height,
            self.interpretation,
            self.data,
            position,
        )
    }

    /// Whether the image is not refused and its strips stand for its data, as they do after every
    /// call that succeeded.
    #[verifier::opaque]
    pub open spec fn succeeds(self) -> bool {
        let parts = pieces(self.data, self.size());
        &&& self.state.image_error(self.width, self.height, self.interpretation) is None
        &&& self.size() > 0
        &&& all_decode(
            self.state.compression,
            all_encoded(self.state.compression, parts),
            parts,
        )
    }
}

/// The images that `calls` write.
pub open spec fn images_of(calls: Seq<Call>) -> Seq<Image> {
    calls.map_values(|call: Call| call.image())
}

/// The stream that held `lead`, after the first `n` of `calls`.
pub open spec fn stream_after(lead: Seq<u8>, calls: Seq<Call>, n: nat) -> Seq<u8>
    decreases n,
{
    if n == 0 {
        lead
    } else {
        let before = stream_after(lead, calls, (n - 1) as nat);
        calls[n - 1].outcome(before.len() as u64).result->Ok_0.applied(before)
    }
}

/// The state of the encoder after the first `n` of `calls`, of which there is at least one.
pub open spec fn state_after(lead: Seq<u8>, calls: Seq<Call>, n: int) -> EncoderState {
    calls[n - 1].outcome(stream_after(lead, calls, (n - 1) as nat).len() as u64).state
}

/// Whether `calls` are calls on one encoder, which was new before the first one. Between two
/// calls anything may be set.
pub open spec fn on_one_encoder(lead: Seq<u8>, calls: Seq<Call>) -> bool {
    &&& calls.len() > 0 ==> calls[0].state.ifd_pointer_pos is None
    &&& forall|n: int| 0 < n < calls.len() ==> #[trigger] goes_on(lead, calls, n)
}

/// Whether the call with the number `n` is made on an encoder that the calls before were made on.
pub open spec fn goes_on(lead: Seq<u8>, calls: Seq<Call>, n: int) -> bool {
    &&& calls[n].state.ifd_pointer_pos == state_after(lead, calls, n).ifd_pointer_pos
    &&& calls[n].state.big_tiff == state_after(lead, calls, n).big_tiff
}

/// Whether `calls` succeed on one encoder, and nothing of what they write gets lost in the fields
/// of the file.
pub open spec fn written(lead: Seq<u8>, calls: Seq<Call>) -> bool {
    let big = calls[0].state.big_tiff;
    &&& calls.len() > 0
    &&& on_one_encoder(lead, calls)
    &&& forall|n: int| 0 <= n < calls.len() ==> #[trigger] calls[n].succeeds()
    &&& all_representable(images_of(calls), big, lead.len())
    &&& stream(lead, images_of(calls), big).len() <= u64::MAX
}

/// A stream is as long as the offset of a further directory.
proof fn lemma_stream_len(lead: Seq<u8>, images: Seq<Image>, big: bool)
    requires
        images.len() > 0,
    ensures
        stream(lead, images, big).len() == directory_offset(
            images,
            big,
            lead.len(),
            images.len(),
        ),
{
    lemma_header_len(big, lead.len() + header_len(big));
    lemma_body_len(images, big, lead.len(), 0);
}

proof fn lemma_offsets_ascend(images: Seq<Image>, big: bool, base: nat, n: nat, m: nat)
    requires
        n <= m <= images.len(),
    ensures
        base < directory_offset(images, big, base, n) <= directory_offset(images, big, base, m),
    decreases m,
{
    if n < m {
        lemma_offsets_ascend(images, big, base, n, (m - 1) as nat);
    } else if m > 0 {
        lemma_offsets_ascend(images, big, base, (m - 1) as nat, (m - 1) as nat);
    }
}

/// With fewer images a stream is not longer.
proof fn lemma_shorter_stream(lead: Seq<u8>, images: Seq<Image>, big: bool, n: nat)
    requires
        0 < n <= images.len(),
    ensures
        stream(lead, images.take(n as int), big).len() <= stream(lead, images, big).len(),
{
    let some = images.take(n as int);
    lemma_stream_len(lead, some, big);
    lemma_stream_len(lead, images, big);
    lemma_directory_offset_prefix(some, images, big, lead.len(), n);
    lemma_offsets_ascend(images, big, lead.len(), n, images.len());
}

/// What a call does, in terms of the image that it writes.
proof fn lemma_call(lead: Seq<u8>, images: Seq<Image>, call: Call)
    requires
        call.succeeds(),
        has_written(call.state, images, lead.len()),
        stream(lead, images.push(call.image()), call.state.big_tiff).len() <= u64::MAX,
    ensures
        ({
            let big = call.state.big_tiff;
            let before = stream(lead, images, big);
            let outcome = call.outcome(before.len() as u64);
            &&& outcome.result is Ok
            &&& outcome.result->Ok_0.applied(before) == stream(
                lead,
                images.push(call.image()),
                big,
            )
            &&& has_written(outcome.state, images.push(call.image()), lead.len())
            &&& outcome.state.big_tiff == big
        }),
{
    reveal(Call::begun);
    reveal(Call::image);
    reveal(Call::outcome);
    reveal(Call::succeeds);
    law_image_is_appended(lead, images, call.begun(), call.image().chunks);
}

/// After some calls the stream is the file with the images that they wrote.
proof fn lemma_stream_after(lead: Seq<u8>, calls: Seq<Call>, n: nat)
    requires
        written(lead, calls),
        n <= calls.len(),
    ensures
        ({
            let big = calls[0].state.big_tiff;
            let images = images_of(calls).take(n as int);
            &&& stream_after(lead, calls, n) == stream(lead, images, big)
            &&& n < calls.len() ==> calls[n as int].state.big_tiff == big && has_written(
                calls[n as int].state,
                images,
                lead.len(),
            )
        }),
    decreases n,
{
    let big = calls[0].state.big_tiff;
    let all = images_of(calls);
    if n > 0 {
        let m = (n - 1) as nat;
        let call = calls[m as int];
        lemma_stream_after(lead, calls, m);
        assert(all.take(n as int) =~= all.take(m as int).push(call.image()));
        lemma_shorter_stream(lead, all, big, n);
        lemma_call(lead, all.take(m as int), call);
        if n < calls.len() {
            assert(goes_on(lead, calls, n as int));
        }
    }
}

/// What the encoder holds once the image of a call has been begun.
proof fn lemma_begun(call: Call, tag: Tag, field: Field)
    ensures
        describes(
            call.begun().fields,
            call.state,
            call.width,
            call.height,
            call.interpretation,
        ),
        entry_is(call.begun().fields, tag, field) ==> !tells_strips(tag),
        entry_is(call.state.fields, tag, field) && !sets_tag(tag.code()) ==> entry_is(
            call.begun().fields,
            tag,
            field,
        ),
{
    reveal(Call::begun);
    law_begun_image_is_described(call.state, call.width, call.height, call.interpretation);
}

/// Every entry that an image was begun with is found in its directory.
proof fn lemma_entry_is_found(call: Call, big: bool, at: nat, tag: Tag, field: Field)
    requires
        entry_is(call.begun().fields, tag, field),
    ensures
        find(sorted(call.image().directory(big, at)), tag) == Some(field),
{
    reveal(Call::image);
    lemma_begun(call, tag, field);
    lemma_entry_stays(call.image(), big, at, tag, field);
    lemma_find(call.image().directory(big, at), tag);
}

/// A file holds the images that were written to it and no others, in the order in which they were
/// written, each one with its own data and described as its own call was set to.
pub proof fn law_all_images_are_read_back(lead: Seq<u8>, calls: Seq<Call>, n: nat)
    requires
        written(lead, calls),
        n < calls.len(),
    ensures
        ({
            let call = calls[n as int];
            let big = calls[0].state.big_tiff;
            let file = stream_after(lead, calls, calls.len());
            let at = read_directory_offset(file, big, lead.len() as int, n) as int;
            &&& read_image(file, big, at) == Some(call.data)
            &&& read_strips(file, big, at) == all_encoded(
                call.state.compression,
                pieces(call.data, call.size()),
            )
            &&& describes(
                call.begun().fields,
                call.state,
                call.width,
                call.height,
                call.interpretation,
            )
            &&& forall|tag: Tag, field: Field|
                #![trigger entry_is(call.begun().fields, tag, field)]
                entry_is(call.begun().fields, tag, field) ==> find(
                    read_directory(file, big, at),
                    tag,
                ) == Some(field)
            &&& (read_next(file, big, at) == 0) == (n + 1 == calls.len())
        }),
{
    let call = calls[n as int];
    let big = calls[0].state.big_tiff;
    let base = lead.len();
    let images = images_of(calls);
    let at = directory_offset(images, big, base, n);
    lemma_stream_after(lead, calls, calls.len());
    assert(images.take(calls.len() as int) =~= images);
    assert(images[n as int] == call.image());
    law_directories_are_found(lead, images, big, n);
    law_images_are_read_back(lead, images, big, n);
    lemma_begun(call, Tag::Compression, field_of(call.state.compression.spec_method().code()));
    assert(calls[n as int].succeeds());
    lemma_data(lead, calls, n);
    assert forall|tag: Tag, field: Field|
        #![trigger entry_is(call.begun().fields, tag, field)]
        entry_is(call.begun().fields, tag, field) implies find(
        sorted(call.image().directory(big, at)),
        tag,
    ) == Some(field) by {
        lemma_entry_is_found(call, big, at, tag, field);
    }
    if n + 1 < calls.len() {
        lemma_offsets_ascend(images, big, base, n + 1, n + 1);
    }
}

proof fn lemma_data(lead: Seq<u8>, calls: Seq<Call>, n: nat)
    requires
        written(lead, calls),
        n < calls.len(),
    ensures
        ({
            let call = calls[n as int];
            let big = calls[0].state.big_tiff;
            let images = images_of(calls);
            &&& read_image(
                stream(lead, images, big),
                big,
                directory_offset(images, big, lead.len(), n) as int,
            ) == Some(call.data)
            &&& call.image().chunks == all_encoded(
                call.state.compression,
                pieces(call.data, call.size()),
            )
        }),
{
    let call = calls[n as int];
    let big = calls[0].state.big_tiff;
    let images = images_of(calls);
    assert(calls[n as int].succeeds());
    assert(images[n as int] == call.image());
    reveal(Call::image);
    reveal(Call::succeeds);
    lemma_begun(call, Tag::Compression, field_of(call.state.compression.spec_method().code()));
    law_image_data_is_read_back(
        lead,
        images,
        big,
        n,
        call.state.compression,
        call.data,
        call.size(),
    );
}

/// Whether nothing was done to the entry for `tag` between the calls.
pub open spec fn leave_tag(lead: Seq<u8>, calls: Seq<Call>, tag: Tag) -> bool {
    forall|n: int| 0 < n < calls.len() ==> #[trigger] keeps_tag(lead, calls, tag, n)
}

/// Whether, before the call with the number `n`, the entry for `tag` is what the call before left.
pub open spec fn keeps_tag(lead: Seq<u8>, calls: Seq<Call>, tag: Tag, n: int) -> bool {
    same_entry(calls[n].state.fields, state_after(lead, calls, n).fields, tag)
}

/// Whether both have the same entry for `tag`, or none.
pub open spec fn same_entry(one: Fields, other: Fields, tag: Tag) -> bool {
    &&& one.contains_key(tag.code()) == other.contains_key(tag.code())
    &&& one[tag.code()] == other[tag.code()]
}

proof fn lemma_entry_lasts(lead: Seq<u8>, calls: Seq<Call>, tag: Tag, field: Field, n: nat)
    requires
        written(lead, calls),
        leave_tag(lead, calls, tag),
        entry_is(calls[0].state.fields, tag, field),
        !sets_tag(tag.code()),
        n < calls.len(),
    ensures
        entry_is(calls[n as int].state.fields, tag, field),
    decreases n,
{
    if n > 0 {
        let call = calls[n - 1];
        lemma_entry_lasts(lead, calls, tag, field, (n - 1) as nat);
        assert(call.succeeds());
        reveal(Call::outcome);
        reveal(Call::succeeds);
        law_tags_hold_for_later_images(
            call.state,
            call.width,
            call.height,
            call.interpretation,
            all_encoded(call.state.compression, pieces(call.data, call.size())),
            stream_after(lead, calls, (n - 1) as nat).len() as u64,
            tag.code(),
        );
        assert(keeps_tag(lead, calls, tag, n as int));
    }
}

/// A tag that was set once, before the first image, is in the directories of all images, but for
/// the tags that every image sets.
pub proof fn law_set_tag_is_in_all_images(
    lead: Seq<u8>,
    calls: Seq<Call>,
    tag: Tag,
    field: Field,
    n: nat,
)
    requires
        written(lead, calls),
        leave_tag(lead, calls, tag),
        entry_is(calls[0].state.fields, tag, field),
        !sets_tag(tag.code()),
        n < calls.len(),
    ensures
        ({
            let big = calls[0].state.big_tiff;
            let file = stream_after(lead, calls, calls.len());
            let at = read_directory_offset(file, big, lead.len() as int, n) as int;
            find(read_directory(file, big, at), tag) == Some(field)
        }),
{
    let call = calls[n as int];
    lemma_entry_lasts(lead, calls, tag, field, n);
    lemma_begun(call, tag, field);
    law_all_images_are_read_back(lead, calls, n);
}

} // verus!
