//! The two flat tables the packet path reads instead of walking a trie.
//!
//! ```text
//! CLASS24  2^24 x 2 bits =  4 MiB   00 nothing . 01 deny . 10 allow . 11 consult the table
//! OA_TABLE 2^21 x 8 B    = 16 MiB   u32 key + u32 tag, Robin Hood, open addressing
//! ```
//!
//! | Key | Answered by |
//! |---|---|
//! | IPv4 prefix `<= /24`, any length | `CLASS24` alone, in one access |
//! | IPv4 `/25` to `/32` | `CLASS24` says `Table`, then `OA_TABLE` |
//! | IPv6, or a key carrying a deadline | the surviving `LPM_TRIE` |
//!
//! A table miss is not a verdict and falls back to nothing: in a `Table` block every address
//! carrying a verdict has its own key, so a miss means that none was configured.

pub mod class24;
pub mod cuckoo;
pub mod robin_hood;

pub use class24::{
    class24_get, class24_index, class24_set, class24_shift, Class24, CLASS24_BYTES,
    CLASS24_ENTRIES, CLASS24_PER_BYTE, CLASS24_PREFIX_BITS, CLASS24_SYMBOL,
};
pub use robin_hood::{
    fmix32, oa_action, oa_fingerprint, oa_index, oa_insert, oa_lookup, oa_occupied, oa_psl, oa_step,
    oa_tag, oa_tag_fingerprint, OaSlot, BLOCKLIST_TRIE_SYMBOL, OA_BYTES, OA_INDEX_BITS,
    OA_INDEX_MASK, OA_MAX_KEYS, OA_MULTIPLIER, OA_PROBES, OA_SLOTS, OA_TABLE_SYMBOL,
    OA_TAG_ACTION_MASK, OA_TAG_ACTION_SHIFT, OA_TAG_FINGERPRINT_MASK, OA_TAG_FINGERPRINT_SHIFT,
    OA_TAG_OCCUPIED, OA_TAG_PSL_MASK, OA_TAG_PSL_SHIFT,
};
