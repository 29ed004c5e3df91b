use vstd::prelude::*;

verus! {

// The raw `u16` codes of the `SyntaxKind` variants that the formatter reads, as
// `u16::from(SyntaxKind)` gives them in ra_ap_syntax 0.0.320.

pub const DOLLAR: u16 = 2;
pub const SEMICOLON: u16 = 3;
pub const COMMA: u16 = 4;
pub const L_PAREN: u16 = 5;
pub const R_PAREN: u16 = 6;
pub const L_CURLY: u16 = 7;
pub const R_CURLY: u16 = 8;
pub const L_BRACK: u16 = 9;
pub const R_BRACK: u16 = 10;
pub const L_ANGLE: u16 = 11;
pub const R_ANGLE: u16 = 12;
pub const AT: u16 = 13;
pub const POUND: u16 = 14;
pub const QUESTION: u16 = 16;
pub const AMP: u16 = 17;
pub const PIPE: u16 = 18;
pub const PLUS: u16 = 19;
pub const STAR: u16 = 20;
pub const SLASH: u16 = 21;
pub const CARET: u16 = 22;
pub const PERCENT: u16 = 23;
pub const UNDERSCORE: u16 = 24;
pub const DOT: u16 = 25;
pub const DOT2: u16 = 26;
pub const DOT3: u16 = 27;
pub const DOT2EQ: u16 = 28;
pub const COLON: u16 = 29;
pub const COLON2: u16 = 30;
pub const EQ: u16 = 31;
pub const EQ2: u16 = 32;
pub const FAT_ARROW: u16 = 33;
pub const BANG: u16 = 34;
pub const NEQ: u16 = 35;
pub const MINUS: u16 = 36;
pub const THIN_ARROW: u16 = 37;
pub const LTEQ: u16 = 38;
pub const GTEQ: u16 = 39;
pub const PLUSEQ: u16 = 40;
pub const MINUSEQ: u16 = 41;
pub const PIPEEQ: u16 = 42;
pub const AMPEQ: u16 = 43;
pub const CARETEQ: u16 = 44;
pub const SLASHEQ: u16 = 45;
pub const STAREQ: u16 = 46;
pub const PERCENTEQ: u16 = 47;
pub const AMP2: u16 = 48;
pub const PIPE2: u16 = 49;
pub const SHL: u16 = 50;
pub const SHR: u16 = 51;
pub const SHLEQ: u16 = 52;
pub const SHREQ: u16 = 53;
pub const SELF_TYPE_KW: u16 = 54;
pub const AS_KW: u16 = 56;
pub const BOX_KW: u16 = 58;
pub const BREAK_KW: u16 = 59;
pub const CONST_KW: u16 = 60;
pub const CONTINUE_KW: u16 = 61;
pub const CRATE_KW: u16 = 62;
pub const ELSE_KW: u16 = 64;
pub const ENUM_KW: u16 = 65;
pub const EXTERN_KW: u16 = 66;
pub const FALSE_KW: u16 = 67;
pub const FN_KW: u16 = 69;
pub const FOR_KW: u16 = 70;
pub const IF_KW: u16 = 71;
pub const IMPL_KW: u16 = 72;
pub const IN_KW: u16 = 73;
pub const LET_KW: u16 = 74;
pub const LOOP_KW: u16 = 75;
pub const MACRO_KW: u16 = 76;
pub const MATCH_KW: u16 = 77;
pub const MOD_KW: u16 = 78;
pub const MOVE_KW: u16 = 79;
pub const MUT_KW: u16 = 80;
pub const PUB_KW: u16 = 83;
pub const REF_KW: u16 = 84;
pub const RETURN_KW: u16 = 85;
pub const SELF_KW: u16 = 86;
pub const STATIC_KW: u16 = 87;
pub const STRUCT_KW: u16 = 88;
pub const SUPER_KW: u16 = 89;
pub const TRAIT_KW: u16 = 90;
pub const TRUE_KW: u16 = 91;
pub const TYPE_KW: u16 = 92;
pub const UNSAFE_KW: u16 = 94;
pub const USE_KW: u16 = 96;
pub const WHERE_KW: u16 = 98;
pub const WHILE_KW: u16 = 99;
pub const YIELD_KW: u16 = 100;
pub const ASYNC_KW: u16 = 102;
pub const AUTO_KW: u16 = 104;
pub const AWAIT_KW: u16 = 105;
pub const DEFAULT_KW: u16 = 109;
pub const DYN_KW: u16 = 110;
pub const SAFE_KW: u16 = 131;
pub const UNION_KW: u16 = 134;
pub const BYTE: u16 = 136;
pub const BYTE_STRING: u16 = 137;
pub const CHAR: u16 = 138;
pub const C_STRING: u16 = 139;
pub const FLOAT_NUMBER: u16 = 140;
pub const INT_NUMBER: u16 = 141;
pub const STRING: u16 = 142;
pub const COMMENT: u16 = 143;
pub const IDENT: u16 = 146;
pub const LIFETIME_IDENT: u16 = 147;
pub const WHITESPACE: u16 = 150;
pub const ASSOC_ITEM_LIST: u16 = 167;
pub const ATTR: u16 = 169;
pub const AWAIT_EXPR: u16 = 170;
pub const EXTERN_ITEM_LIST: u16 = 189;
pub const FIELD_EXPR: u16 = 190;
pub const FN_PTR_TYPE: u16 = 192;
pub const GENERIC_ARG_LIST: u16 = 199;
pub const GENERIC_PARAM_LIST: u16 = 200;
pub const ITEM_LIST: u16 = 207;
pub const MACRO_CALL: u16 = 218;
pub const MATCH_ARM_LIST: u16 = 227;
pub const METHOD_CALL_EXPR: u16 = 231;
pub const MODULE: u16 = 232;
pub const NAME: u16 = 233;
pub const PARAM_LIST: u16 = 239;
pub const PATH: u16 = 244;
pub const PREFIX_EXPR: u16 = 249;
pub const PTR_TYPE: u16 = 250;
pub const RECORD_EXPR_FIELD_LIST: u16 = 255;
pub const RECORD_FIELD_LIST: u16 = 257;
pub const RECORD_PAT_FIELD_LIST: u16 = 260;
pub const REF_EXPR: u16 = 261;
pub const REF_PAT: u16 = 262;
pub const REF_TYPE: u16 = 263;
pub const RENAME: u16 = 264;
pub const PARAM: u16 = 238;
pub const SELF_PARAM: u16 = 269;
pub const SOURCE_FILE: u16 = 272;
pub const STMT_LIST: u16 = 274;
pub const TOKEN_TREE: u16 = 276;
pub const TRY_EXPR: u16 = 279;
pub const TYPE_ANCHOR: u16 = 287;
pub const TYPE_BOUND_LIST: u16 = 290;
pub const TYPE_PARAM: u16 = 291;
pub const USE: u16 = 294;
pub const USE_TREE: u16 = 296;
pub const USE_TREE_LIST: u16 = 297;
pub const VARIANT_LIST: u16 = 299;
pub const VISIBILITY: u16 = 300;

} // verus!
