//! Decomposition of CJK characters into structural components, and the
//! lookup tables built from it: leaf components per character, a reverse
//! index from component keys to characters, and the component vocabulary of
//! a word list; also the vocabulary and glosses drawn from the dictionaries.
pub mod dictionary;
pub mod extract;
pub mod index;
pub mod ids_map;
pub mod leaves;
pub mod text;

pub use dictionary::{
    extract_char_glosses_with_top_words, extract_hsk_words, extract_word_glosses, tally_char_levels,
    tally_word_levels, CharStatistics, ChineseCharacter, ChineseDictionaryElement, LevelTally, TopWord,
    WordItem, WordStatistics,
};
pub use extract::{extract_components_from_ids, is_extended_idc};
pub use ids_map::{parse_ids_line, IdsMap};
pub use index::{
    build_char_decompositions, build_components_to_chars, build_game_data, CharacterDecomposition,
    ComponentsToCharacters, GameData,
};
pub use leaves::{decompose_to_leaves, extract_allowed_components};
pub use text::{component_key, contains_char, contains_str, lex_le_str, replace_str, sort_components};
