//! From the files of a batch to loaded items.
//!
//! The caller reads the files; this module decodes what was read, brings
//! each image to the target size and colour mode, and decides what a failure
//! means for the batch: by default the first item that cannot be loaded fails
//! the batch, and a caller may ask for such items to be skipped instead.

use crate::generator::{BatchItem, GeneratorConfig};
use crate::model::{PipelineError, PipelineErrorView};
use crate::pixels::{materialize, ColorMode, PixelBuffer};
use vstd::prelude::*;

verus! {

/// What to do with an item that cannot be loaded.
#[derive(Clone, Copy, Debug, PartialEq, Eq, Structural)]
pub enum DecodePolicy {
    /// Fail the batch with `ItemDecodeError`.
    Abort,
    /// Leave the item out of the batch.
    Skip,
}

/// An image and the index of its class.
#[derive(Debug, PartialEq, Eq)]
pub struct LoadedItem {
    pub image: PixelBuffer,
    pub label_index: usize,
}

/// Every image is there.
pub open spec fn all_loaded(images: Seq<Option<PixelBuffer>>) -> bool {
    forall|i: int| 0 <= i < images.len() ==> (#[trigger] images[i]) is Some
}

/// Place `j` is the first without an image.
pub open spec fn is_first_failure(images: Seq<Option<PixelBuffer>>, j: int) -> bool {
    &&& 0 <= j < images.len()
    &&& images[j] is None
    &&& forall|i: int| 0 <= i < j ==> (#[trigger] images[i]) is Some
}

/// There is one first place without an image at most.
pub proof fn lemma_first_failure_unique(images: Seq<Option<PixelBuffer>>, i: int, j: int)
    requires
        is_first_failure(images, i),
        is_first_failure(images, j),
    ensures
        i == j,
{
    if i < j {
        assert(images[i] is Some);
    } else if j < i {
        assert(images[j] is Some);
    }
}

/// The loaded items of the first `upto` places: each image that is there,
/// with the label index of its place, in order.
pub open spec fn kept_upto(items: Seq<BatchItem>, images: Seq<Option<PixelBuffer>>, upto: nat) -> Seq<
    LoadedItem,
>
    decreases upto,
{
    if upto == 0 {
        Seq::empty()
    } else {
        let place = (upto - 1) as int;
        let before = kept_upto(items, images, place as nat);
        match images[place] {
            Some(image) => before.push(
                LoadedItem { image, label_index: items[place].label_index },
            ),
            None => before,
        }
    }
}

/// `out` is what assembling `images` for `items` gives under `policy`: under
/// `Abort` the batch of every item where every image is there, otherwise the
/// failure at the first place without one; under `Skip` the batch of the
/// items whose images are there.
pub open spec fn assembles_to(
    items: Seq<BatchItem>,
    images: Seq<Option<PixelBuffer>>,
    policy: DecodePolicy,
    out: Result<Vec<LoadedItem>, PipelineError>,
) -> bool {
    match out {
        Ok(batch) => {
            &&& policy == DecodePolicy::Skip || all_loaded(images)
            &&& batch@ == kept_upto(items, images, images.len())
        },
        Err(e) => {
            &&& policy == DecodePolicy::Abort
            &&& exists|j: int|
                {
                    &&& #[trigger] is_first_failure(images, j)
                    &&& e.deep_view() == (PipelineErrorView::ItemDecodeError {
                        path: items[j].path@,
                    })
                }
        },
    }
}

/// `images` can be what loading `contents` gives: one image or none for each
/// content, none where there is no content, and each image of the target
/// size and the colour mode of `config`.
pub open spec fn is_loading_of(
    images: Seq<Option<PixelBuffer>>,
    contents: Seq<Option<Vec<u8>>>,
    config: GeneratorConfig,
) -> bool {
    &&& images.len() == contents.len()
    &&& forall|i: int| 0 <= i < contents.len() ==> ((#[trigger] contents[i]) is None ==> images[i] is None)
    &&& all_sized(images, config.target_width, config.target_height, config.color_mode)
}

/// Every image that is there has the size and the colour mode given.
pub open spec fn all_sized(
    images: Seq<Option<PixelBuffer>>,
    width: u32,
    height: u32,
    mode: ColorMode,
) -> bool {
    forall|i: int|
        0 <= i < images.len() ==> ((#[trigger] images[i]) matches Some(b) ==> b@.width == width
            && b@.height == height && b@.color_mode == mode)
}

/// Of `upto` places at most `upto` items are kept, each with an image of the
/// size and colour mode that all images have.
pub proof fn lemma_kept_sized(
    items: Seq<BatchItem>,
    images: Seq<Option<PixelBuffer>>,
    upto: nat,
    width: u32,
    height: u32,
    mode: ColorMode,
)
    requires
        upto <= images.len(),
        all_sized(images, width, height, mode),
    ensures
        kept_upto(items, images, upto).len() <= upto,
        forall|i: int|
            0 <= i < kept_upto(items, images, upto).len() ==> {
                let kept = #[trigger] kept_upto(items, images, upto)[i];
                kept.image@.width == width && kept.image@.height == height
                    && kept.image@.color_mode == mode
            },
    decreases upto,
{
    if upto > 0 {
        lemma_kept_sized(items, images, (upto - 1) as nat, width, height, mode);
        assert(images[upto - 1] is Some ==> images[upto - 1] is Some);
    }
}

/// Where every image is there, every place is kept.
pub proof fn lemma_kept_all(items: Seq<BatchItem>, images: Seq<Option<PixelBuffer>>, upto: nat)
    requires
        upto <= images.len(),
        all_loaded(images),
    ensures
        kept_upto(items, images, upto).len() == upto,
        forall|i: int|
            0 <= i < upto ==> {
                let kept = #[trigger] kept_upto(items, images, upto)[i];
                Some(kept.image) == images[i] && kept.label_index == items[i].label_index
            },
    decreases upto,
{
    if upto > 0 {
        lemma_kept_all(items, images, (upto - 1) as nat);
        assert(images[upto - 1] is Some);
    }
}

/// Turns a list end for end.
fn reversed(list: Vec<Option<PixelBuffer>>) -> (turned: Vec<Option<PixelBuffer>>)
    ensures
        turned@.len() == list@.len(),
        forall|i: int| 0 <= i < turned@.len() ==> turned@[i] == list@[list@.len() - 1 - i],
{
    let ghost given = list@;
    let mut list = list;
    let mut turned: Vec<Option<PixelBuffer>> = Vec::new();
    while list.len() > 0
        invariant
            list@.len() + turned@.len() == given.len(),
            forall|i: int| 0 <= i < list@.len() ==> list@[i] == given[i],
            forall|i: int| 0 <= i < turned@.len() ==> turned@[i] == given[given.len() - 1 - i],
        decreases list@.len(),
    {
        match list.pop() {
            Some(last) => {
                turned.push(last);
            },
            None => {},
        }
    }
    turned
}

/// Pairs the images with the label indices of their places.
///
/// Under `Abort` the batch fails exactly when an image is missing, and the
/// error names the path of the first place without one. Under `Skip` the
/// places without an image are left out.
pub fn assemble_batch(
    items: &Vec<BatchItem>,
    images: Vec<Option<PixelBuffer>>,
    policy: DecodePolicy,
) -> (out: Result<Vec<LoadedItem>, PipelineError>)
    requires
        images.len() == items.len(),
    ensures
        assembles_to(items@, images@, policy, out),
{
    let n = images.len();
    let ghost given = images@;
    let mut pending = reversed(images);
    let mut batch: Vec<LoadedItem> = Vec::new();
    let mut k: usize = 0;
    while k < n
        invariant
            given == images@,
            n == given.len(),
            n == items.len(),
            k <= n,
            pending@.len() == n - k,
            forall|i: int| 0 <= i < pending@.len() ==> pending@[i] == given[n - 1 - i],
            batch@ == kept_upto(items@, given, k as nat),
            policy == DecodePolicy::Abort ==> forall|i: int|
                0 <= i < k ==> (#[trigger] given[i]) is Some,
        decreases n - k,
    {
        let next = pending.pop();
        assert(next == Some(given[k as int]));
        match next {
            Some(Some(image)) => {
                batch.push(LoadedItem { image, label_index: items[k].label_index });
            },
            Some(None) => {
                match policy {
                    DecodePolicy::Abort => {
                        let e = PipelineError::ItemDecodeError { path: items[k].path.clone() };
                        assert(is_first_failure(given, k as int));
                        assert(e.deep_view() == (PipelineErrorView::ItemDecodeError {
                            path: items@[k as int].path@,
                        }));
                        return Err(e);
                    },
                    DecodePolicy::Skip => {},
                }
            },
            None => {},
        }
        k = k + 1;
    }
    Ok(batch)
}

/// Loads a batch from the contents of its files, `None` standing for a file
/// that could not be read: each is decoded, resized to the target size and
/// delivered in the colour mode of `config`.
///
/// Whether a file decodes is for the decoder to say. Whatever it says,
/// there is one image or none for each item, none where the file could not
/// be read, each of the target size and colour mode, and the outcome is what
/// [`assemble_batch`] makes of the items and those images.
pub fn load_batch(
    items: &Vec<BatchItem>,
    contents: &Vec<Option<Vec<u8>>>,
    config: &GeneratorConfig,
    policy: DecodePolicy,
) -> (out: Result<Vec<LoadedItem>, PipelineError>)
    requires
        contents.len() == items.len(),
    ensures
        exists|images: Seq<Option<PixelBuffer>>|
            {
                &&& #[trigger] is_loading_of(images, contents@, *config)
                &&& assembles_to(items@, images, policy, out)
            },
        match out {
            Ok(batch) => {
                &&& batch.len() <= items.len()
                &&& forall|i: int|
                    0 <= i < batch.len() ==> {
                        let image = (#[trigger] batch@[i]).image@;
                        image.width == config.target_width && image.height
                            == config.target_height && image.color_mode == config.color_mode
                    }
                &&& policy == DecodePolicy::Abort ==> {
                    &&& batch.len() == items.len()
                    &&& forall|i: int|
                        0 <= i < batch.len() ==> (#[trigger] batch@[i]).label_index
                            == items@[i].label_index
                    &&& forall|i: int| 0 <= i < contents.len() ==> (#[trigger] contents@[i]) is Some
                }
            },
            Err(e) => {
                &&& policy == DecodePolicy::Abort
                &&& exists|j: int|
                    0 <= j < items.len() && e.deep_view() == (PipelineErrorView::ItemDecodeError {
                        path: (#[trigger] items@[j]).path@,
                    })
            },
        },
{
    let n = items.len();
    let mut images: Vec<Option<PixelBuffer>> = Vec::new();
    let mut k: usize = 0;
    while k < n
        invariant
            n == items.len(),
            n == contents.len(),
            k <= n,
            images@.len() == k,
            all_sized(images@, config.target_width, config.target_height, config.color_mode),
            forall|i: int| 0 <= i < k ==> ((#[trigger] contents@[i]) is None ==> images@[i] is None),
        decreases n - k,
    {
        let image = match &contents[k] {
            Some(bytes) => materialize(
                bytes,
                config.target_width,
                config.target_height,
                config.color_mode,
            ),
            None => None,
        };
        images.push(image);
        k = k + 1;
    }
    let ghost loaded = images@;
    let out = assemble_batch(items, images, policy);
    proof {
        assert(is_loading_of(loaded, contents@, *config));
        lemma_kept_sized(
            items@,
            loaded,
            n as nat,
            config.target_width,
            config.target_height,
            config.color_mode,
        );
        if all_loaded(loaded) {
            lemma_kept_all(items@, loaded, n as nat);
            assert forall|i: int| 0 <= i < contents.len() implies (#[trigger] contents@[i])
                is Some by {
                assert(loaded[i] is Some);
            }
        }
        if out is Err {
            let e = out->Err_0;
            let j = choose|j: int|
                {
                    &&& #[trigger] is_first_failure(loaded, j)
                    &&& e.deep_view() == (PipelineErrorView::ItemDecodeError {
                        path: items@[j].path@,
                    })
                };
            assert(0 <= j < items.len());
        }
    }
    out
}

} // verus!
