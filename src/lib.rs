//! Core of a small print-queue tool: an ordered, user-reorderable list of
//! images, the thumbnails shown for them, and the printable HTML document
//! rendered from the list's current order.
mod bitmap;
mod html;
mod image_list;

pub use bitmap::{
    decoded_rgba, fit_dims, generate_thumbnail, lemma_thumbnail_bound, premul_channel,
    premultiplied, premultiply, MAX_DECODED_PIXELS, shrink_to_thumbnail, thumbnail_pixels, thumbnail_size, Bitmap,
    THUMBNAIL_MAX,
};
pub use html::{
    encode_spaces, generate_html, html_doc, image_blocks, lemma_export_deterministic,
    path_to_uri,
};
pub use image_list::{
    contains_handle, drop_destination, drop_target, failures, handles_unique,
    lemma_appends_keep_order, lemma_failure_isolated,
    lemma_move_same_index_is_noop, moved, result_view, successes, EntryId, EntryView, ImageEntry, ImageList,
    MoveError, ResultView,
};
