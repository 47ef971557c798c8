//! Path separators, kind names and error texts shared by every part of the store.

use vstd::prelude::*;

verus! {

// ── Path structure ──────────────────────────────────────────────────────

/// Path separator.
pub const PATH_SEP: &'static str = "/";
/// Suffix of a directory index key (a trailing slash marks a directory).
pub const DIR_INDEX_SUF: &'static str = "/";
/// Member separator (U+00B7): `m·name` is member `name` of container `m`.
pub const OBJ_SEP: &'static str = "\u{00B7}";
/// Prefix of runtime-reserved fields (U+2025), hidden from listings.
pub const RUNTIME_MEMBER_SEP: &'static str = "\u{2025}";
/// Separator of paths inside an index value.
pub const INDEX_VALUE_SEP: &'static str = "\n";
/// Prefix shown before the target of an extension index (U+2026).
pub const EXT_INDEX_HEAD: &'static str = "\u{2026}";

/// The path separator as a character.
pub const PATH_SEP_CHAR: char = '/';
/// The member separator as a character.
pub const OBJ_SEP_CHAR: char = '\u{00B7}';

// ── Errors ─────────────────────────────────────────────────────────────

pub const ERR_DIR_MUST_END_WITH_SLASH: &'static str = "kvspace: index must end with /";
pub const ERR_INVALID_PATH: &'static str = "kvspace: path must be absolute and canonical";
pub const ERR_INVALID_DIR_VALUE: &'static str = "kvspace: directory value must be kind=index";
pub const ERR_INVALID_VALUE: &'static str = "kvspace: value cannot be encoded and decoded losslessly";
pub const ERR_DISCONNECTED: &'static str = "kvspace: connection is disconnected";
pub const ERR_GET: &'static str = "kvspace: GET";
pub const ERR_PIPE_EXEC: &'static str = "kvspace: pipeline exec";
pub const ERR_RESOLVE: &'static str = "kvspace: \u{8def}\u{5f84}\u{89e3}\u{6790} GET";
pub const ERR_SCAN: &'static str = "kvspace: SCAN";
pub const ERR_EXT_WRITE: &'static str = "kvspace: \u{7981}\u{6b62}\u{5bf9} extindex \u{53ea}\u{8bfb}\u{8def}\u{5f84}\u{6267}\u{884c}\u{5199}\u{64cd}\u{4f5c}";
pub const ERR_EXT_DEL: &'static str = "kvspace: \u{7981}\u{6b62}\u{5220}\u{9664} extindex \u{53ea}\u{8bfb}\u{8def}\u{5f84}";
pub const ERR_NOT_DIR: &'static str = "kvspace: \u{7236}\u{8def}\u{5f84}\u{4e0d}\u{662f}\u{76ee}\u{5f55}";
pub const ERR_PARENT_NOT_FOUND: &'static str = "kvspace: \u{7236}\u{76ee}\u{5f55}\u{4e0d}\u{5b58}\u{5728}";
pub const ERR_EXT_CASCADE: &'static str = "kvspace: ExtIndex \u{4e0d}\u{5bb9}\u{8bb8}\u{7ea7}\u{8054}";
pub const ERR_EXT_TARGET: &'static str = "kvspace: ExtIndex target must be an existing ordinary index";
pub const ERR_EXT_COLLISION: &'static str = "kvspace: ExtIndex local and extension children overlap";
pub const ERR_LINK_TYPE_MISMATCH: &'static str = "kvspace: Link target \u{548c} linkpath \u{7c7b}\u{578b}\u{4e0d}\u{4e00}\u{81f4}";
pub const ERR_LINK_PATH_EXISTS: &'static str = "kvspace: Link path already contains a non-link value";
pub const ERR_MAP_NDIM: &'static str = "kvspace: strkeymapindex needs ndim >= 1";

// ── Kinds ──────────────────────────────────────────────────────────────

pub const KIND_NONE: &'static str = "None";
pub const DICT_SEP: &'static str = ".";

pub const KIND_BOOL: &'static str = "bool";
pub const KIND_INT8: &'static str = "int8";
pub const KIND_UINT8: &'static str = "uint8";
pub const KIND_CHAR: &'static str = "char/utf32";
pub const KIND_CHAR_UTF8: &'static str = "char/utf8";
pub const KIND_CHAR_ASCII: &'static str = "char/ascii";
pub const KIND_INT16: &'static str = "int16";
pub const KIND_UINT16: &'static str = "uint16";
pub const KIND_INT32: &'static str = "int32";
pub const KIND_UINT32: &'static str = "uint32";
pub const KIND_FLOAT32: &'static str = "float32";
pub const KIND_INT64: &'static str = "int64";
pub const KIND_UINT64: &'static str = "uint64";
pub const KIND_FLOAT64: &'static str = "float64";
pub const KIND_TIME: &'static str = "time";
pub const KIND_DURATION: &'static str = "duration";

pub const KIND_DICT: &'static str = "dict";
pub const KIND_INDEX: &'static str = "index";
pub const KIND_EXT_INDEX: &'static str = "extindex";
pub const KIND_OBJ: &'static str = "objindex";
pub const KIND_MAP: &'static str = "strkeymapindex";
pub const KIND_RWIR: &'static str = "rwir";
pub const KIND_RWFUNC: &'static str = "rwfunc";
pub const KIND_DEF_RWIR: &'static str = "def rwir";


/// The spelling of every kind name: its length and characters, none of them the member
/// separator.
pub proof fn lemma_kind_spelling()
    ensures
        KIND_BOOL@.len() == 4,
        KIND_BOOL@[0] == 'b',
        KIND_BOOL@[1] == 'o',
        KIND_BOOL@[2] == 'o',
        KIND_BOOL@[3] == 'l',
        !KIND_BOOL@.contains(OBJ_SEP_CHAR),
        KIND_INT8@.len() == 4,
        KIND_INT8@[0] == 'i',
        KIND_INT8@[1] == 'n',
        KIND_INT8@[2] == 't',
        KIND_INT8@[3] == '8',
        !KIND_INT8@.contains(OBJ_SEP_CHAR),
        KIND_UINT8@.len() == 5,
        KIND_UINT8@[0] == 'u',
        KIND_UINT8@[1] == 'i',
        KIND_UINT8@[2] == 'n',
        KIND_UINT8@[3] == 't',
        KIND_UINT8@[4] == '8',
        !KIND_UINT8@.contains(OBJ_SEP_CHAR),
        KIND_CHAR@.len() == 10,
        KIND_CHAR@[0] == 'c',
        KIND_CHAR@[1] == 'h',
        KIND_CHAR@[2] == 'a',
        KIND_CHAR@[3] == 'r',
        KIND_CHAR@[4] == '/',
        KIND_CHAR@[5] == 'u',
        KIND_CHAR@[6] == 't',
        KIND_CHAR@[7] == 'f',
        KIND_CHAR@[8] == '3',
        KIND_CHAR@[9] == '2',
        !KIND_CHAR@.contains(OBJ_SEP_CHAR),
        KIND_CHAR_UTF8@.len() == 9,
        KIND_CHAR_UTF8@[0] == 'c',
        KIND_CHAR_UTF8@[1] == 'h',
        KIND_CHAR_UTF8@[2] == 'a',
        KIND_CHAR_UTF8@[3] == 'r',
        KIND_CHAR_UTF8@[4] == '/',
        KIND_CHAR_UTF8@[5] == 'u',
        KIND_CHAR_UTF8@[6] == 't',
        KIND_CHAR_UTF8@[7] == 'f',
        KIND_CHAR_UTF8@[8] == '8',
        !KIND_CHAR_UTF8@.contains(OBJ_SEP_CHAR),
        KIND_CHAR_ASCII@.len() == 10,
        KIND_CHAR_ASCII@[0] == 'c',
        KIND_CHAR_ASCII@[1] == 'h',
        KIND_CHAR_ASCII@[2] == 'a',
        KIND_CHAR_ASCII@[3] == 'r',
        KIND_CHAR_ASCII@[4] == '/',
        KIND_CHAR_ASCII@[5] == 'a',
        KIND_CHAR_ASCII@[6] == 's',
        KIND_CHAR_ASCII@[7] == 'c',
        KIND_CHAR_ASCII@[8] == 'i',
        KIND_CHAR_ASCII@[9] == 'i',
        !KIND_CHAR_ASCII@.contains(OBJ_SEP_CHAR),
        KIND_INT16@.len() == 5,
        KIND_INT16@[0] == 'i',
        KIND_INT16@[1] == 'n',
        KIND_INT16@[2] == 't',
        KIND_INT16@[3] == '1',
        KIND_INT16@[4] == '6',
        !KIND_INT16@.contains(OBJ_SEP_CHAR),
        KIND_UINT16@.len() == 6,
        KIND_UINT16@[0] == 'u',
        KIND_UINT16@[1] == 'i',
        KIND_UINT16@[2] == 'n',
        KIND_UINT16@[3] == 't',
        KIND_UINT16@[4] == '1',
        KIND_UINT16@[5] == '6',
        !KIND_UINT16@.contains(OBJ_SEP_CHAR),
        KIND_INT32@.len() == 5,
        KIND_INT32@[0] == 'i',
        KIND_INT32@[1] == 'n',
        KIND_INT32@[2] == 't',
        KIND_INT32@[3] == '3',
        KIND_INT32@[4] == '2',
        !KIND_INT32@.contains(OBJ_SEP_CHAR),
        KIND_UINT32@.len() == 6,
        KIND_UINT32@[0] == 'u',
        KIND_UINT32@[1] == 'i',
        KIND_UINT32@[2] == 'n',
        KIND_UINT32@[3] == 't',
        KIND_UINT32@[4] == '3',
        KIND_UINT32@[5] == '2',
        !KIND_UINT32@.contains(OBJ_SEP_CHAR),
        KIND_FLOAT32@.len() == 7,
        KIND_FLOAT32@[0] == 'f',
        KIND_FLOAT32@[1] == 'l',
        KIND_FLOAT32@[2] == 'o',
        KIND_FLOAT32@[3] == 'a',
        KIND_FLOAT32@[4] == 't',
        KIND_FLOAT32@[5] == '3',
        KIND_FLOAT32@[6] == '2',
        !KIND_FLOAT32@.contains(OBJ_SEP_CHAR),
        KIND_INT64@.len() == 5,
        KIND_INT64@[0] == 'i',
        KIND_INT64@[1] == 'n',
        KIND_INT64@[2] == 't',
        KIND_INT64@[3] == '6',
        KIND_INT64@[4] == '4',
        !KIND_INT64@.contains(OBJ_SEP_CHAR),
        KIND_UINT64@.len() == 6,
        KIND_UINT64@[0] == 'u',
        KIND_UINT64@[1] == 'i',
        KIND_UINT64@[2] == 'n',
        KIND_UINT64@[3] == 't',
        KIND_UINT64@[4] == '6',
        KIND_UINT64@[5] == '4',
        !KIND_UINT64@.contains(OBJ_SEP_CHAR),
        KIND_FLOAT64@.len() == 7,
        KIND_FLOAT64@[0] == 'f',
        KIND_FLOAT64@[1] == 'l',
        KIND_FLOAT64@[2] == 'o',
        KIND_FLOAT64@[3] == 'a',
        KIND_FLOAT64@[4] == 't',
        KIND_FLOAT64@[5] == '6',
        KIND_FLOAT64@[6] == '4',
        !KIND_FLOAT64@.contains(OBJ_SEP_CHAR),
        KIND_TIME@.len() == 4,
        KIND_TIME@[0] == 't',
        KIND_TIME@[1] == 'i',
        KIND_TIME@[2] == 'm',
        KIND_TIME@[3] == 'e',
        !KIND_TIME@.contains(OBJ_SEP_CHAR),
        KIND_DURATION@.len() == 8,
        KIND_DURATION@[0] == 'd',
        KIND_DURATION@[1] == 'u',
        KIND_DURATION@[2] == 'r',
        KIND_DURATION@[3] == 'a',
        KIND_DURATION@[4] == 't',
        KIND_DURATION@[5] == 'i',
        KIND_DURATION@[6] == 'o',
        KIND_DURATION@[7] == 'n',
        !KIND_DURATION@.contains(OBJ_SEP_CHAR),
        KIND_INDEX@.len() == 5,
        KIND_INDEX@[0] == 'i',
        KIND_INDEX@[1] == 'n',
        KIND_INDEX@[2] == 'd',
        KIND_INDEX@[3] == 'e',
        KIND_INDEX@[4] == 'x',
        !KIND_INDEX@.contains(OBJ_SEP_CHAR),
        KIND_EXT_INDEX@.len() == 8,
        KIND_EXT_INDEX@[0] == 'e',
        KIND_EXT_INDEX@[1] == 'x',
        KIND_EXT_INDEX@[2] == 't',
        KIND_EXT_INDEX@[3] == 'i',
        KIND_EXT_INDEX@[4] == 'n',
        KIND_EXT_INDEX@[5] == 'd',
        KIND_EXT_INDEX@[6] == 'e',
        KIND_EXT_INDEX@[7] == 'x',
        !KIND_EXT_INDEX@.contains(OBJ_SEP_CHAR),
        KIND_MAP@.len() == 14,
        KIND_MAP@[0] == 's',
        KIND_MAP@[1] == 't',
        KIND_MAP@[2] == 'r',
        KIND_MAP@[3] == 'k',
        KIND_MAP@[4] == 'e',
        KIND_MAP@[5] == 'y',
        KIND_MAP@[6] == 'm',
        KIND_MAP@[7] == 'a',
        KIND_MAP@[8] == 'p',
        KIND_MAP@[9] == 'i',
        KIND_MAP@[10] == 'n',
        KIND_MAP@[11] == 'd',
        KIND_MAP@[12] == 'e',
        KIND_MAP@[13] == 'x',
        !KIND_MAP@.contains(OBJ_SEP_CHAR),
        KIND_RWIR@.len() == 4,
        KIND_RWIR@[0] == 'r',
        KIND_RWIR@[1] == 'w',
        KIND_RWIR@[2] == 'i',
        KIND_RWIR@[3] == 'r',
        !KIND_RWIR@.contains(OBJ_SEP_CHAR),
        KIND_RWFUNC@.len() == 6,
        KIND_RWFUNC@[0] == 'r',
        KIND_RWFUNC@[1] == 'w',
        KIND_RWFUNC@[2] == 'f',
        KIND_RWFUNC@[3] == 'u',
        KIND_RWFUNC@[4] == 'n',
        KIND_RWFUNC@[5] == 'c',
        !KIND_RWFUNC@.contains(OBJ_SEP_CHAR),
        KIND_DEF_RWIR@.len() == 8,
        KIND_DEF_RWIR@[0] == 'd',
        KIND_DEF_RWIR@[1] == 'e',
        KIND_DEF_RWIR@[2] == 'f',
        KIND_DEF_RWIR@[3] == ' ',
        KIND_DEF_RWIR@[4] == 'r',
        KIND_DEF_RWIR@[5] == 'w',
        KIND_DEF_RWIR@[6] == 'i',
        KIND_DEF_RWIR@[7] == 'r',
        !KIND_DEF_RWIR@.contains(OBJ_SEP_CHAR),
{
    reveal_strlit("bool");
    assert(KIND_BOOL@.len() == 4);
    reveal_strlit("int8");
    assert(KIND_INT8@.len() == 4);
    reveal_strlit("uint8");
    assert(KIND_UINT8@.len() == 5);
    reveal_strlit("char/utf32");
    assert(KIND_CHAR@.len() == 10);
    reveal_strlit("char/utf8");
    assert(KIND_CHAR_UTF8@.len() == 9);
    reveal_strlit("char/ascii");
    assert(KIND_CHAR_ASCII@.len() == 10);
    reveal_strlit("int16");
    assert(KIND_INT16@.len() == 5);
    reveal_strlit("uint16");
    assert(KIND_UINT16@.len() == 6);
    reveal_strlit("int32");
    assert(KIND_INT32@.len() == 5);
    reveal_strlit("uint32");
    assert(KIND_UINT32@.len() == 6);
    reveal_strlit("float32");
    assert(KIND_FLOAT32@.len() == 7);
    reveal_strlit("int64");
    assert(KIND_INT64@.len() == 5);
    reveal_strlit("uint64");
    assert(KIND_UINT64@.len() == 6);
    reveal_strlit("float64");
    assert(KIND_FLOAT64@.len() == 7);
    reveal_strlit("time");
    assert(KIND_TIME@.len() == 4);
    reveal_strlit("duration");
    assert(KIND_DURATION@.len() == 8);
    reveal_strlit("index");
    assert(KIND_INDEX@.len() == 5);
    reveal_strlit("extindex");
    assert(KIND_EXT_INDEX@.len() == 8);
    reveal_strlit("strkeymapindex");
    assert(KIND_MAP@.len() == 14);
    reveal_strlit("rwir");
    assert(KIND_RWIR@.len() == 4);
    reveal_strlit("rwfunc");
    assert(KIND_RWFUNC@.len() == 6);
    reveal_strlit("def rwir");
    assert(KIND_DEF_RWIR@.len() == 8);
}

} // verus!
