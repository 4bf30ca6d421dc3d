//! Page rasterization and text-layer alignment for a paginated document
//! viewer: coordinate mapping, pixel conversion and encoding, word grouping
//! and fragment filtering, a page cache with an integrity check, and the
//! batched load schedule that fills it. Around that core: the record lists
//! the viewer keeps (cards, recent files, bookmarks), the request and answer
//! shapes of its answer services, and markdown clean-up.

pub mod ai;
pub mod cache;
pub mod geometry;
pub mod markdown;
pub mod page;
pub mod raster;
pub mod rotation;
pub mod scheduler;
pub mod storage;
pub mod text;

pub use ai::{
    AIProvider, Candidate, ChatChoice, ChatGPTRequest, ChatGPTResponse, ChatMessage, ClaudeContent,
    ClaudeMessage, ClaudeRequest, ClaudeResponse, Content, GeminiRequest, GeminiResponse, Part,
};
pub use cache::PageCache;
pub use geometry::{PageGeometry, PointRect, TextBounds};
pub use markdown::clean_markdown_text;
pub use page::{build_page_data, extract_page_text, PdfPageData, RasterOutput};
pub use raster::{bgra_to_rgba, encode_png_data_url, PixelImage, RenderError};
pub use rotation::{overlay_dims, RotationAngle};
pub use scheduler::{load_plan, Batch, Completion, LoadAction, LoadScheduler, PageJob};
pub use storage::{
    add_flashcard, add_position_marker, add_recent_file, append_detailed_explanation,
    delete_flashcard, find_page_rotations, find_position_markers, find_reading_bookmark,
    remove_position_marker, remove_reading_bookmark, upsert_page_rotations, upsert_reading_bookmark,
    ApiKeys, FlashCard, PageRotations, PdfMarkers, PositionMarker, ReadingBookmark, RecentFile,
    StorageError,
};
pub use text::{filter_overlapping_text, group_words, Glyph, TextElement};
