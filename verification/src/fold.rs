//! Folding accented Latin letters and combining marks to plain ASCII.
use vstd::prelude::*;

verus! {

/// The ASCII text that an accented Latin letter folds to; combining marks
/// fold to nothing; other characters have no folding.
pub open spec fn fold_spec(c: char) -> Option<Seq<char>> {
    match c {
        '\u{0300}'..='\u{036f}' | '\u{1ab0}'..='\u{1aff}' | '\u{1dc0}'..='\u{1dff}'
        | '\u{20d0}'..='\u{20ff}' | '\u{fe20}'..='\u{fe2f}' => Some(seq![]),
        'À' | 'Á' | 'Â' | 'Ã' | 'Ä' | 'Å' | 'Ā' | 'Ă' | 'Ą' | 'Ǎ' | 'Ǟ' | 'Ǡ' | 'Ǻ'
        | 'Ȁ' | 'Ȃ' | 'Ȧ' | 'Ḁ' | 'Ạ' | 'Ả' | 'Ấ' | 'Ầ' | 'Ẩ' | 'Ẫ' | 'Ậ' | 'Ắ'
        | 'Ằ' | 'Ẳ' | 'Ẵ' | 'Ặ' => Some(seq!['a']),
        'à' | 'á' | 'â' | 'ã' | 'ä' | 'å' | 'ā' | 'ă' | 'ą' | 'ǎ' | 'ǟ' | 'ǡ' | 'ǻ'
        | 'ȁ' | 'ȃ' | 'ȧ' | 'ḁ' | 'ạ' | 'ả' | 'ấ' | 'ầ' | 'ẩ' | 'ẫ' | 'ậ' | 'ắ'
        | 'ằ' | 'ẳ' | 'ẵ' | 'ặ' => Some(seq!['a']),
        'Æ' | 'Ǣ' | 'Ǽ' => Some(seq!['a', 'e']),
        'æ' | 'ǣ' | 'ǽ' => Some(seq!['a', 'e']),
        'Ḃ' | 'Ḅ' | 'Ḇ' => Some(seq!['b']),
        'ḃ' | 'ḅ' | 'ḇ' => Some(seq!['b']),
        'Ç' | 'Ć' | 'Ĉ' | 'Ċ' | 'Č' | 'Ḉ' => Some(seq!['c']),
        'ç' | 'ć' | 'ĉ' | 'ċ' | 'č' | 'ḉ' => Some(seq!['c']),
        'Ð' | 'Ď' | 'Đ' | 'Ḋ' | 'Ḍ' | 'Ḏ' | 'Ḑ' | 'Ḓ' => Some(seq!['d']),
        'ð' | 'ď' | 'đ' | 'ḋ' | 'ḍ' | 'ḏ' | 'ḑ' | 'ḓ' => Some(seq!['d']),
        'È' | 'É' | 'Ê' | 'Ë' | 'Ē' | 'Ĕ' | 'Ė' | 'Ę' | 'Ě' | 'Ȅ' | 'Ȇ' | 'Ȩ' | 'Ḕ'
        | 'Ḗ' | 'Ḙ' | 'Ḛ' | 'Ḝ' | 'Ẹ' | 'Ẻ' | 'Ẽ' | 'Ế' | 'Ề' | 'Ể' | 'Ễ' | 'Ệ' => {
            Some(seq!['e'])
        }
        'è' | 'é' | 'ê' | 'ë' | 'ē' | 'ĕ' | 'ė' | 'ę' | 'ě' | 'ȅ' | 'ȇ' | 'ȩ' | 'ḕ'
        | 'ḗ' | 'ḙ' | 'ḛ' | 'ḝ' | 'ẹ' | 'ẻ' | 'ẽ' | 'ế' | 'ề' | 'ể' | 'ễ' | 'ệ' => {
            Some(seq!['e'])
        }
        'Ḟ' => Some(seq!['f']),
        'ḟ' => Some(seq!['f']),
        'Ĝ' | 'Ğ' | 'Ġ' | 'Ģ' | 'Ǧ' | 'Ǵ' | 'Ḡ' => Some(seq!['g']),
        'ĝ' | 'ğ' | 'ġ' | 'ģ' | 'ǧ' | 'ǵ' | 'ḡ' => Some(seq!['g']),
        'Ĥ' | 'Ħ' | 'Ȟ' | 'Ḣ' | 'Ḥ' | 'Ḧ' | 'Ḩ' | 'Ḫ' => Some(seq!['h']),
        'ĥ' | 'ħ' | 'ȟ' | 'ḣ' | 'ḥ' | 'ḧ' | 'ḩ' | 'ḫ' => Some(seq!['h']),
        'Ì' | 'Í' | 'Î' | 'Ï' | 'Ĩ' | 'Ī' | 'Ĭ' | 'Į' | 'İ' | 'Ǐ' | 'Ȉ' | 'Ȋ' | 'Ḭ'
        | 'Ḯ' | 'Ỉ' | 'Ị' => Some(seq!['i']),
        'ì' | 'í' | 'î' | 'ï' | 'ĩ' | 'ī' | 'ĭ' | 'į' | 'ı' | 'ǐ' | 'ȉ' | 'ȋ' | 'ḭ'
        | 'ḯ' | 'ỉ' | 'ị' => Some(seq!['i']),
        'Ĵ' => Some(seq!['j']),
        'ĵ' => Some(seq!['j']),
        'Ķ' | 'Ǩ' | 'Ḱ' | 'Ḳ' | 'Ḵ' => Some(seq!['k']),
        'ķ' | 'ǩ' | 'ḱ' | 'ḳ' | 'ḵ' => Some(seq!['k']),
        'Ĺ' | 'Ļ' | 'Ľ' | 'Ŀ' | 'Ł' | 'Ḷ' | 'Ḹ' | 'Ḻ' | 'Ḽ' => Some(seq!['l']),
        'ĺ' | 'ļ' | 'ľ' | 'ŀ' | 'ł' | 'ḷ' | 'ḹ' | 'ḻ' | 'ḽ' => Some(seq!['l']),
        'Ḿ' | 'Ṁ' | 'Ṃ' => Some(seq!['m']),
        'ḿ' | 'ṁ' | 'ṃ' => Some(seq!['m']),
        'Ñ' | 'Ń' | 'Ņ' | 'Ň' | 'Ǹ' | 'Ṅ' | 'Ṇ' | 'Ṉ' | 'Ṋ' => Some(seq!['n']),
        'ñ' | 'ń' | 'ņ' | 'ň' | 'ǹ' | 'ṅ' | 'ṇ' | 'ṉ' | 'ṋ' => Some(seq!['n']),
        'Ò' | 'Ó' | 'Ô' | 'Õ' | 'Ö' | 'Ø' | 'Ō' | 'Ŏ' | 'Ő' | 'Ơ' | 'Ǒ' | 'Ǫ' | 'Ǭ'
        | 'Ȍ' | 'Ȏ' | 'Ȫ' | 'Ȭ' | 'Ȯ' | 'Ȱ' | 'Ṍ' | 'Ṏ' | 'Ṑ' | 'Ṓ' | 'Ọ' | 'Ỏ'
        | 'Ố' | 'Ồ' | 'Ổ' | 'Ỗ' | 'Ộ' | 'Ớ' | 'Ờ' | 'Ở' | 'Ỡ' | 'Ợ' => Some(seq!['o']),
        'ò' | 'ó' | 'ô' | 'õ' | 'ö' | 'ø' | 'ō' | 'ŏ' | 'ő' | 'ơ' | 'ǒ' | 'ǫ' | 'ǭ'
        | 'ȍ' | 'ȏ' | 'ȫ' | 'ȭ' | 'ȯ' | 'ȱ' | 'ṍ' | 'ṏ' | 'ṑ' | 'ṓ' | 'ọ' | 'ỏ'
        | 'ố' | 'ồ' | 'ổ' | 'ỗ' | 'ộ' | 'ớ' | 'ờ' | 'ở' | 'ỡ' | 'ợ' => Some(seq!['o']),
        'Œ' => Some(seq!['o', 'e']),
        'œ' => Some(seq!['o', 'e']),
        'Ṕ' | 'Ṗ' => Some(seq!['p']),
        'ṕ' | 'ṗ' => Some(seq!['p']),
        'Ŕ' | 'Ŗ' | 'Ř' | 'Ȑ' | 'Ȓ' | 'Ṙ' | 'Ṛ' | 'Ṝ' | 'Ṟ' => Some(seq!['r']),
        'ŕ' | 'ŗ' | 'ř' | 'ȑ' | 'ȓ' | 'ṙ' | 'ṛ' | 'ṝ' | 'ṟ' => Some(seq!['r']),
        'Ś' | 'Ŝ' | 'Ş' | 'Š' | 'Ș' | 'Ṡ' | 'Ṣ' | 'Ṥ' | 'Ṧ' | 'Ṩ' => Some(seq!['s']),
        'ś' | 'ŝ' | 'ş' | 'š' | 'ș' | 'ṡ' | 'ṣ' | 'ṥ' | 'ṧ' | 'ṩ' | 'ſ' => Some(seq!['s']),
        'ẞ' | 'ß' => Some(seq!['s', 's']),
        'Ţ' | 'Ť' | 'Ŧ' | 'Ț' | 'Ṫ' | 'Ṭ' | 'Ṯ' | 'Ṱ' => Some(seq!['t']),
        'ţ' | 'ť' | 'ŧ' | 'ț' | 'ṫ' | 'ṭ' | 'ṯ' | 'ṱ' => Some(seq!['t']),
        'Þ' | 'þ' => Some(seq!['t', 'h']),
        'Ù' | 'Ú' | 'Û' | 'Ü' | 'Ũ' | 'Ū' | 'Ŭ' | 'Ů' | 'Ű' | 'Ų' | 'Ư' | 'Ǔ' | 'Ǖ'
        | 'Ǘ' | 'Ǚ' | 'Ǜ' | 'Ȕ' | 'Ȗ' | 'Ṳ' | 'Ṵ' | 'Ṷ' | 'Ṹ' | 'Ṻ' | 'Ụ' | 'Ủ'
        | 'Ứ' | 'Ừ' | 'Ử' | 'Ữ' | 'Ự' => Some(seq!['u']),
        'ù' | 'ú' | 'û' | 'ü' | 'ũ' | 'ū' | 'ŭ' | 'ů' | 'ű' | 'ų' | 'ư' | 'ǔ' | 'ǖ'
        | 'ǘ' | 'ǚ' | 'ǜ' | 'ȕ' | 'ȗ' | 'ṳ' | 'ṵ' | 'ṷ' | 'ṹ' | 'ṻ' | 'ụ' | 'ủ'
        | 'ứ' | 'ừ' | 'ử' | 'ữ' | 'ự' => Some(seq!['u']),
        'Ṽ' | 'Ṿ' => Some(seq!['v']),
        'ṽ' | 'ṿ' => Some(seq!['v']),
        'Ŵ' | 'Ẁ' | 'Ẃ' | 'Ẅ' | 'Ẇ' | 'Ẉ' => Some(seq!['w']),
        'ŵ' | 'ẁ' | 'ẃ' | 'ẅ' | 'ẇ' | 'ẉ' => Some(seq!['w']),
        'Ẋ' | 'Ẍ' => Some(seq!['x']),
        'ẋ' | 'ẍ' => Some(seq!['x']),
        'Ý' | 'Ŷ' | 'Ÿ' | 'Ȳ' | 'Ẏ' | 'Ỳ' | 'Ỵ' | 'Ỷ' | 'Ỹ' => Some(seq!['y']),
        'ý' | 'ÿ' | 'ŷ' | 'ȳ' | 'ẏ' | 'ỳ' | 'ỵ' | 'ỷ' | 'ỹ' => Some(seq!['y']),
        'Ź' | 'Ż' | 'Ž' | 'Ẑ' | 'Ẓ' | 'Ẕ' => Some(seq!['z']),
        'ź' | 'ż' | 'ž' | 'ẑ' | 'ẓ' | 'ẕ' => Some(seq!['z']),
        _ => None,
    }
}

/// Folds an accented Latin letter or a combining mark to ASCII.
pub fn ascii_fold_char(c: char) -> (r: Option<Vec<char>>)
    ensures
        r is None <==> fold_spec(c) is None,
        r matches Some(v) ==> fold_spec(c) == Some(v@),
{
    match c {
        '\u{0300}'..='\u{036f}' | '\u{1ab0}'..='\u{1aff}' | '\u{1dc0}'..='\u{1dff}'
        | '\u{20d0}'..='\u{20ff}' | '\u{fe20}'..='\u{fe2f}' => Some(vec![]),
        'À' | 'Á' | 'Â' | 'Ã' | 'Ä' | 'Å' | 'Ā' | 'Ă' | 'Ą' | 'Ǎ' | 'Ǟ' | 'Ǡ' | 'Ǻ'
        | 'Ȁ' | 'Ȃ' | 'Ȧ' | 'Ḁ' | 'Ạ' | 'Ả' | 'Ấ' | 'Ầ' | 'Ẩ' | 'Ẫ' | 'Ậ' | 'Ắ'
        | 'Ằ' | 'Ẳ' | 'Ẵ' | 'Ặ' => Some(vec!['a']),
        'à' | 'á' | 'â' | 'ã' | 'ä' | 'å' | 'ā' | 'ă' | 'ą' | 'ǎ' | 'ǟ' | 'ǡ' | 'ǻ'
        | 'ȁ' | 'ȃ' | 'ȧ' | 'ḁ' | 'ạ' | 'ả' | 'ấ' | 'ầ' | 'ẩ' | 'ẫ' | 'ậ' | 'ắ'
        | 'ằ' | 'ẳ' | 'ẵ' | 'ặ' => Some(vec!['a']),
        'Æ' | 'Ǣ' | 'Ǽ' => Some(vec!['a', 'e']),
        'æ' | 'ǣ' | 'ǽ' => Some(vec!['a', 'e']),
        'Ḃ' | 'Ḅ' | 'Ḇ' => Some(vec!['b']),
        'ḃ' | 'ḅ' | 'ḇ' => Some(vec!['b']),
        'Ç' | 'Ć' | 'Ĉ' | 'Ċ' | 'Č' | 'Ḉ' => Some(vec!['c']),
        'ç' | 'ć' | 'ĉ' | 'ċ' | 'č' | 'ḉ' => Some(vec!['c']),
        'Ð' | 'Ď' | 'Đ' | 'Ḋ' | 'Ḍ' | 'Ḏ' | 'Ḑ' | 'Ḓ' => Some(vec!['d']),
        'ð' | 'ď' | 'đ' | 'ḋ' | 'ḍ' | 'ḏ' | 'ḑ' | 'ḓ' => Some(vec!['d']),
        'È' | 'É' | 'Ê' | 'Ë' | 'Ē' | 'Ĕ' | 'Ė' | 'Ę' | 'Ě' | 'Ȅ' | 'Ȇ' | 'Ȩ' | 'Ḕ'
        | 'Ḗ' | 'Ḙ' | 'Ḛ' | 'Ḝ' | 'Ẹ' | 'Ẻ' | 'Ẽ' | 'Ế' | 'Ề' | 'Ể' | 'Ễ' | 'Ệ' => {
            Some(vec!['e'])
        }
        'è' | 'é' | 'ê' | 'ë' | 'ē' | 'ĕ' | 'ė' | 'ę' | 'ě' | 'ȅ' | 'ȇ' | 'ȩ' | 'ḕ'
        | 'ḗ' | 'ḙ' | 'ḛ' | 'ḝ' | 'ẹ' | 'ẻ' | 'ẽ' | 'ế' | 'ề' | 'ể' | 'ễ' | 'ệ' => {
            Some(vec!['e'])
        }
        'Ḟ' => Some(vec!['f']),
        'ḟ' => Some(vec!['f']),
        'Ĝ' | 'Ğ' | 'Ġ' | 'Ģ' | 'Ǧ' | 'Ǵ' | 'Ḡ' => Some(vec!['g']),
        'ĝ' | 'ğ' | 'ġ' | 'ģ' | 'ǧ' | 'ǵ' | 'ḡ' => Some(vec!['g']),
        'Ĥ' | 'Ħ' | 'Ȟ' | 'Ḣ' | 'Ḥ' | 'Ḧ' | 'Ḩ' | 'Ḫ' => Some(vec!['h']),
        'ĥ' | 'ħ' | 'ȟ' | 'ḣ' | 'ḥ' | 'ḧ' | 'ḩ' | 'ḫ' => Some(vec!['h']),
        'Ì' | 'Í' | 'Î' | 'Ï' | 'Ĩ' | 'Ī' | 'Ĭ' | 'Į' | 'İ' | 'Ǐ' | 'Ȉ' | 'Ȋ' | 'Ḭ'
        | 'Ḯ' | 'Ỉ' | 'Ị' => Some(vec!['i']),
        'ì' | 'í' | 'î' | 'ï' | 'ĩ' | 'ī' | 'ĭ' | 'į' | 'ı' | 'ǐ' | 'ȉ' | 'ȋ' | 'ḭ'
        | 'ḯ' | 'ỉ' | 'ị' => Some(vec!['i']),
        'Ĵ' => Some(vec!['j']),
        'ĵ' => Some(vec!['j']),
        'Ķ' | 'Ǩ' | 'Ḱ' | 'Ḳ' | 'Ḵ' => Some(vec!['k']),
        'ķ' | 'ǩ' | 'ḱ' | 'ḳ' | 'ḵ' => Some(vec!['k']),
        'Ĺ' | 'Ļ' | 'Ľ' | 'Ŀ' | 'Ł' | 'Ḷ' | 'Ḹ' | 'Ḻ' | 'Ḽ' => Some(vec!['l']),
        'ĺ' | 'ļ' | 'ľ' | 'ŀ' | 'ł' | 'ḷ' | 'ḹ' | 'ḻ' | 'ḽ' => Some(vec!['l']),
        'Ḿ' | 'Ṁ' | 'Ṃ' => Some(vec!['m']),
        'ḿ' | 'ṁ' | 'ṃ' => Some(vec!['m']),
        'Ñ' | 'Ń' | 'Ņ' | 'Ň' | 'Ǹ' | 'Ṅ' | 'Ṇ' | 'Ṉ' | 'Ṋ' => Some(vec!['n']),
        'ñ' | 'ń' | 'ņ' | 'ň' | 'ǹ' | 'ṅ' | 'ṇ' | 'ṉ' | 'ṋ' => Some(vec!['n']),
        'Ò' | 'Ó' | 'Ô' | 'Õ' | 'Ö' | 'Ø' | 'Ō' | 'Ŏ' | 'Ő' | 'Ơ' | 'Ǒ' | 'Ǫ' | 'Ǭ'
        | 'Ȍ' | 'Ȏ' | 'Ȫ' | 'Ȭ' | 'Ȯ' | 'Ȱ' | 'Ṍ' | 'Ṏ' | 'Ṑ' | 'Ṓ' | 'Ọ' | 'Ỏ'
        | 'Ố' | 'Ồ' | 'Ổ' | 'Ỗ' | 'Ộ' | 'Ớ' | 'Ờ' | 'Ở' | 'Ỡ' | 'Ợ' => Some(vec!['o']),
        'ò' | 'ó' | 'ô' | 'õ' | 'ö' | 'ø' | 'ō' | 'ŏ' | 'ő' | 'ơ' | 'ǒ' | 'ǫ' | 'ǭ'
        | 'ȍ' | 'ȏ' | 'ȫ' | 'ȭ' | 'ȯ' | 'ȱ' | 'ṍ' | 'ṏ' | 'ṑ' | 'ṓ' | 'ọ' | 'ỏ'
        | 'ố' | 'ồ' | 'ổ' | 'ỗ' | 'ộ' | 'ớ' | 'ờ' | 'ở' | 'ỡ' | 'ợ' => Some(vec!['o']),
        'Œ' => Some(vec!['o', 'e']),
        'œ' => Some(vec!['o', 'e']),
        'Ṕ' | 'Ṗ' => Some(vec!['p']),
        'ṕ' | 'ṗ' => Some(vec!['p']),
        'Ŕ' | 'Ŗ' | 'Ř' | 'Ȑ' | 'Ȓ' | 'Ṙ' | 'Ṛ' | 'Ṝ' | 'Ṟ' => Some(vec!['r']),
        'ŕ' | 'ŗ' | 'ř' | 'ȑ' | 'ȓ' | 'ṙ' | 'ṛ' | 'ṝ' | 'ṟ' => Some(vec!['r']),
        'Ś' | 'Ŝ' | 'Ş' | 'Š' | 'Ș' | 'Ṡ' | 'Ṣ' | 'Ṥ' | 'Ṧ' | 'Ṩ' => Some(vec!['s']),
        'ś' | 'ŝ' | 'ş' | 'š' | 'ș' | 'ṡ' | 'ṣ' | 'ṥ' | 'ṧ' | 'ṩ' | 'ſ' => Some(vec!['s']),
        'ẞ' | 'ß' => Some(vec!['s', 's']),
        'Ţ' | 'Ť' | 'Ŧ' | 'Ț' | 'Ṫ' | 'Ṭ' | 'Ṯ' | 'Ṱ' => Some(vec!['t']),
        'ţ' | 'ť' | 'ŧ' | 'ț' | 'ṫ' | 'ṭ' | 'ṯ' | 'ṱ' => Some(vec!['t']),
        'Þ' | 'þ' => Some(vec!['t', 'h']),
        'Ù' | 'Ú' | 'Û' | 'Ü' | 'Ũ' | 'Ū' | 'Ŭ' | 'Ů' | 'Ű' | 'Ų' | 'Ư' | 'Ǔ' | 'Ǖ'
        | 'Ǘ' | 'Ǚ' | 'Ǜ' | 'Ȕ' | 'Ȗ' | 'Ṳ' | 'Ṵ' | 'Ṷ' | 'Ṹ' | 'Ṻ' | 'Ụ' | 'Ủ'
        | 'Ứ' | 'Ừ' | 'Ử' | 'Ữ' | 'Ự' => Some(vec!['u']),
        'ù' | 'ú' | 'û' | 'ü' | 'ũ' | 'ū' | 'ŭ' | 'ů' | 'ű' | 'ų' | 'ư' | 'ǔ' | 'ǖ'
        | 'ǘ' | 'ǚ' | 'ǜ' | 'ȕ' | 'ȗ' | 'ṳ' | 'ṵ' | 'ṷ' | 'ṹ' | 'ṻ' | 'ụ' | 'ủ'
        | 'ứ' | 'ừ' | 'ử' | 'ữ' | 'ự' => Some(vec!['u']),
        'Ṽ' | 'Ṿ' => Some(vec!['v']),
        'ṽ' | 'ṿ' => Some(vec!['v']),
        'Ŵ' | 'Ẁ' | 'Ẃ' | 'Ẅ' | 'Ẇ' | 'Ẉ' => Some(vec!['w']),
        'ŵ' | 'ẁ' | 'ẃ' | 'ẅ' | 'ẇ' | 'ẉ' => Some(vec!['w']),
        'Ẋ' | 'Ẍ' => Some(vec!['x']),
        'ẋ' | 'ẍ' => Some(vec!['x']),
        'Ý' | 'Ŷ' | 'Ÿ' | 'Ȳ' | 'Ẏ' | 'Ỳ' | 'Ỵ' | 'Ỷ' | 'Ỹ' => Some(vec!['y']),
        'ý' | 'ÿ' | 'ŷ' | 'ȳ' | 'ẏ' | 'ỳ' | 'ỵ' | 'ỷ' | 'ỹ' => Some(vec!['y']),
        'Ź' | 'Ż' | 'Ž' | 'Ẑ' | 'Ẓ' | 'Ẕ' => Some(vec!['z']),
        'ź' | 'ż' | 'ž' | 'ẑ' | 'ẓ' | 'ẕ' => Some(vec!['z']),
        _ => None,
    }
}

} // verus!
