mod char_map;
mod map;
mod spread;
mod table;
mod transform;
mod transform_entry;
mod transform_error;
mod transform_list;

pub use char_map::CharMap;
pub use char_map::CHARS_PER_MAP;
pub use char_map::ascii_slot;
pub use map::MapTransform;
pub use map::MapTransformer;
pub use map::law_map_transform_unmarked;
pub use spread::Spread;
pub use spread::SpreadTransformer;
pub use spread::law_spread_follows_every_character_with_a_space;
pub use transform::Transform;
pub use transform::Transformer;
pub use transform::Scan;
pub use transform::scan;
pub use transform::scan_step;
pub use transform::star_ranges;
pub use transform::is_star_of;
pub use transform::is_inside;
pub use transform::piece;
pub use transform::pieces;
pub use transform::marked_image;
pub use transform::ranges_wf;
pub use transform::scan_wf;
pub use transform::lemma_scan_wf;
pub use transform::lemma_role;
pub use transform_entry::TransformEntry;
pub use transform_entry::TransformKind;
pub use transform_entry::KindTransformer;
pub use transform_entry::snake_case;
pub use transform_entry::display_name;
pub use transform_entry::law_display_name_has_no_parentheses;
pub use transform_error::TransformError;
pub use transform_error::not_found_message;
pub use table::Record;
pub use table::first_index;
pub use table::records;
pub use table::table_fits;
pub use table::drop_cr;
pub use table::cr_dropped;
pub use table::filled_table;
pub use table::is_comment;
pub use transform_entry::KindModel;
pub use transform_entry::EntryModel;
pub use transform_list::TransformList;
pub use transform_list::record_model;
pub use transform_list::key_pos;
pub use transform_list::upsert;
pub use transform_list::table_entries;
pub use transform_list::entries_wf;
pub use transform_list::lemma_key_pos;
pub use transform_list::lemma_upsert_wf;
pub use transform_list::lemma_table_entries_wf;
pub use transform_list::FuzzyMatchResult;
pub use transform_list::skim_score;
pub use transform_list::entry_image;
pub use transform_list::ranks_before;
pub use transform::law_unmarked_message_transformed_whole;
pub use transform::law_starless_message_transformed_whole;
pub use transform::law_starred_word_transformed;
pub use transform::lemma_pieces_unmarked;
pub use transform::lemma_scan_starless;
pub use transform::lemma_scan_starred;
pub use transform_list::last_line_named;
pub use transform_list::law_lookup_finds_last_line;
pub use transform_list::names_lowercase;
pub use transform_list::lemma_upsert_lowercase;
