//! Zstandard compression and decompression, with every function stated and
//! proved against a mathematical model of the format.

pub mod attached_laws;
pub mod bits;
pub mod bits_encode;
pub mod block;
pub mod block_encode_model;
pub mod blocks_encode;
pub mod checksum_laws;
pub mod choice_laws;
pub mod compress;
pub mod compress_dict;
pub mod compress_laws;
pub mod compress_model;
pub mod compress_mt;
pub mod cparams;
pub mod cparams_laws;
pub mod decode_laws;
pub mod decompress;
pub mod decompress_laws;
pub mod dfast;
pub mod dfast_model;
pub mod dict_encode;
pub mod dictionary;
pub mod dictionary_laws;
pub mod entropy_laws;
pub mod error;
pub mod fast;
pub mod fast_model;
pub mod format_laws;
pub mod frame;
pub mod frame_compress;
pub mod frame_encode;
pub mod frame_laws;
pub mod frame_model;
pub mod finder_laws;
pub mod fse;
pub mod fse_counts;
pub mod fse_counts_model;
pub mod fse_encode;
pub mod fse_encode_model;
pub mod histogram;
pub mod huffman;
pub mod huffman_code_laws;
pub mod huffman_codes;
pub mod huffman_depth_laws;
pub mod huffman_encode;
pub mod huffman_encode_model;
pub mod huffman_header;
pub mod huffman_height_laws;
pub mod huffman_laws;
pub mod huffman_made_laws;
pub mod huffman_shape_laws;
pub mod huffman_sort_laws;
pub mod huffman_tree;
pub mod huffman_tree_model;
pub mod index_laws;
pub mod layout;
pub mod lazy;
pub mod lazy_model;
pub mod lazy_parse_model;
pub mod lazy_search;
pub mod lazy_tree;
pub mod lazy_tree_model;
pub mod ldm;
pub mod ldm_laws;
pub mod ldm_model;
pub mod limit_laws;
pub mod literals_encode;
pub mod making_laws;
pub mod math;
pub mod normalize_laws;
pub mod opt;
pub mod opt_match_model;
pub mod opt_matches;
pub mod opt_model;
pub mod opt_price_model;
pub mod opt_prices;
pub mod parser;
pub mod post_split;
pub mod post_split_model;
pub mod pre_split;
pub mod prefix_laws;
pub mod recent;
pub mod price_laws;
pub mod search_laws;
pub mod section_laws;
pub mod seq_codes;
pub mod seq_store;
pub mod seq_tables;
pub mod sequences_encode;
pub mod session_laws;
pub mod spread;
pub mod stream;
pub mod stream_laws;
pub mod tree;
pub mod tree_laws;
pub mod tree_model;
pub mod window;
pub mod window_laws;
pub mod xxhash;

pub use compress::compress;
pub use compress_dict::{compress_with_cdict, compress_with_dict};
pub use compress_mt::compress_mt;
pub use cparams::{cparams_create_cdict_for_testing, cparams_for_testing};
pub use decompress::{decompress, decompress_with_limit, DecodeOptions};
pub use dictionary::Dictionary;
pub use error::Error;
pub use frame::WINDOW_LOG_MAX;
pub use stream::StreamDecoder;
