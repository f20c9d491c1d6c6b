//! Texts that tend to expose bugs in string handling.
use vstd::prelude::*;

verus! {

/// The codepoints of a text.
pub open spec fn codepoints(text: Seq<char>) -> Seq<u32> {
    text.map_values(|c: char| c as u32)
}

/// The codepoints of `text`.
pub fn codepoints_of(text: &str) -> (r: Vec<u32>)
    ensures
        r@ == codepoints(text@),
{
    let mut out: Vec<u32> = Vec::new();
    for c in it: text.chars()
        invariant
            out@.len() == it.index(),
            it.seq() == text@,
            forall|i: int| 0 <= i < out@.len() ==> out@[i] == text@[i] as u32,
    {
        out.push(c as u32);
    }
    assert(out@ =~= codepoints(text@));
    out
}

/// The contents of a list of codepoint vectors.
pub open spec fn texts_view(texts: Seq<Vec<u32>>) -> Seq<Seq<u32>> {
    texts.map_values(|t: Vec<u32>| t@)
}

/// The codepoints of each of a list of texts.
pub open spec fn texts_codepoints(texts: Seq<Seq<char>>) -> Seq<Seq<u32>> {
    texts.map_values(|t: Seq<char>| codepoints(t))
}

fn push_text(out: &mut Vec<Vec<u32>>, text: &str)
    ensures
        texts_view(final(out)@) == texts_view(old(out)@).push(codepoints(text@)),
{
    out.push(codepoints_of(text));
    assert(texts_view(out@) =~= texts_view(old(out)@).push(codepoints(text@)));
}

/// Logic keywords, numeric edge cases and Unicode stress texts.
pub open spec fn constant_texts() -> Seq<Seq<char>> {
    keyword_texts() + number_texts() + symbol_texts() + script_texts()
}

/// Keywords of common languages.
pub open spec fn keyword_texts() -> Seq<Seq<char>> {
    seq![
        "undefined"@,
        "null"@,
        "NULL"@,
        "nil"@,
        "NIL"@,
        "true"@,
        "false"@,
        "True"@,
        "False"@,
        "TRUE"@,
        "FALSE"@,
        "None"@,
        "none"@,
        "if"@,
        "then"@,
        "else"@,
        "__dict__"@,
        "__proto__"@,
    ]
}

/// Spellings of unusual numbers.
pub open spec fn number_texts() -> Seq<Seq<char>> {
    seq![
        "0"@,
        "1e100"@,
        "0..0"@,
        "0/0"@,
        "1/0"@,
        "+0.0"@,
        "Infinity"@,
        "-Infinity"@,
        "Inf"@,
        "INF"@,
        "NaN"@,
        "999999999999999999999999999999"@,
    ]
}

/// Symbols, ligatures, emoji and right-to-left scripts.
pub open spec fn symbol_texts() -> Seq<Seq<char>> {
    seq![
        ",./;'[]\\-=<>?:\"{}|_+!@#$%^&*()`~"@,
        "Ω≈ç√∫˜µ≤≥÷åß∂ƒ©˙∆˚¬…æœ∑´®†¥¨ˆøπ\u{201C}\u{2018}¡™£¢∞§¶•ªº–≠¸˛Ç◊ı˜Â¯˘¿ÅÍÎÏ˝ÓÔÒÚÆ☃Œ„´‰ˇÁ¨ˆØ∏\u{201D}\u{2019}`⁄€‹›ﬁﬂ‡°·‚—±"@,
        "Ⱥ"@,
        "Ⱦ"@,
        "æœÆŒﬀʤʨß"@,
        "(╯°□°）╯︵ ┻━┻)"@,
        "😍"@,
        "🇺🇸"@,
        "🏻"@,
        "👍🏻"@,
        "الكل في المجمو عة"@,
        "᚛ᚄᚓᚐᚋᚒᚄ ᚑᚄᚂᚑᚏᚅ᚜"@,
        "กา"@,
        "ก ำกำ"@,
    ]
}

/// Unusual alphabets, reserved names, combining marks and line breaks.
pub open spec fn script_texts() -> Seq<Seq<char>> {
    seq![
        "𝐓𝐡𝐞 𝐪𝐮𝐢𝐜𝐤 𝐛𝐫𝐨𝐰𝐧 𝐟𝐨𝐱 𝐣𝐮𝐦𝐩𝐬 𝐨𝐯𝐞𝐫 𝐭𝐡𝐞 𝐥𝐚𝐳𝐲 𝐝𝐨𝐠"@,
        "𝕿𝖍𝖊 𝖖𝖚𝖎𝖈𝖐 𝖇𝖗𝖔𝖜𝖓 𝖋𝖔𝖝 𝖏𝖚𝖒𝖕𝖘 𝖔𝖛𝖊𝖗 𝖙𝖍𝖊 𝖑𝖆𝖟𝖞 𝖉𝖔𝖌"@,
        "𝑻𝒉𝒆 𝒒𝒖𝒊𝒄𝒌 𝒃𝒓𝒐𝒘𝒏 𝒇𝒐𝒙 𝒋𝒖𝒎𝒑𝒔 𝒐𝒗𝒆𝒓 𝒕𝒉𝒆 𝒍𝒂𝒛𝒚 𝒅𝒐𝒈"@,
        "𝓣𝓱𝓮 𝓺𝓾𝓲𝓬𝓴 𝓫𝓻𝓸𝔀𝓷 𝓯𝓸𝔁 𝓳𝓾𝓶𝓹𝓼 𝓸𝓿𝓮𝓻 𝓽𝓱𝓮 𝓵𝓪𝔃𝔂 𝓭𝓸𝓰"@,
        "𝕋𝕙𝕖 𝕢𝕦𝕚𝕔𝕜 𝕓𝕣𝕠𝕨𝕟 𝕗𝕠𝕩 𝕛𝕦𝕞𝕡𝕤 𝕠𝕧𝕖𝕣 𝕥𝕙𝕖 𝕝𝕒𝕫𝕪 𝕕𝕠𝕘"@,
        "ʇǝɯɐ ʇᴉs ɹolop ɯnsdᴉ ɯǝɹo˥"@,
        "NUL"@,
        "COM1"@,
        "LPT1"@,
        "Scunthorpe"@,
        "Ṱ̺̺̕o͞ ̷i̲̬͇̪͙n̝̗͕v̟̜̘̦͟o̶̙̰̠kè͚̮̺̪̹̱̤ ̖t̝͕̳̣̻̪͞h̼͓̲̦̳̘̲e͇̣̰̦̬͎ ̢̼̻̱̘h͚͎͙̜̣̲ͅi̦̲̣̰̤v̻͍e̺̭̳̪̰-m̢iͅn̖̺̞̲̯̰d̵̼̟͙̩̼̘̳ ̞̥̱̳̭r̛̗̘e͙p͠r̼̞̻̭̗e̺̠̣͟s̘͇̳͍̝͉e͉̥̯̞̲͚̬͜ǹ̬͎͎̟̖͇̤t͍̬̤͓̼̭͘ͅi̪̱n͠g̴͉ ͏͉ͅc̬̟h͡a̫̻̯͘o̫̟̖͍̙̝͉s̗̦̲.̨̹͈̣"@,
        "मनीष منش"@,
        "पन्ह पन्ह त्र र्च कृकृ ड्ड न्हृे إلا بسم الله"@,
        "lorem لا بسم الله ipsum 你好1234你好"@,
        "a\u{000A}b\u{000D}c\u{0085}d\u{000B}e\u{000C}f\u{2028}g\u{2029}h\u{000D}\u{000A}i"@,
    ]
}

fn push_keyword_texts(out: &mut Vec<Vec<u32>>)
    ensures
        texts_view(final(out)@) == texts_view(old(out)@) + texts_codepoints(keyword_texts()),
{
    push_text(out, "undefined");
    push_text(out, "null");
    push_text(out, "NULL");
    push_text(out, "nil");
    push_text(out, "NIL");
    push_text(out, "true");
    push_text(out, "false");
    push_text(out, "True");
    push_text(out, "False");
    push_text(out, "TRUE");
    push_text(out, "FALSE");
    push_text(out, "None");
    push_text(out, "none");
    push_text(out, "if");
    push_text(out, "then");
    push_text(out, "else");
    push_text(out, "__dict__");
    push_text(out, "__proto__");
    assert(texts_view(out@) =~= texts_view(old(out)@) + texts_codepoints(keyword_texts()));
}

fn push_number_texts(out: &mut Vec<Vec<u32>>)
    ensures
        texts_view(final(out)@) == texts_view(old(out)@) + texts_codepoints(number_texts()),
{
    push_text(out, "0");
    push_text(out, "1e100");
    push_text(out, "0..0");
    push_text(out, "0/0");
    push_text(out, "1/0");
    push_text(out, "+0.0");
    push_text(out, "Infinity");
    push_text(out, "-Infinity");
    push_text(out, "Inf");
    push_text(out, "INF");
    push_text(out, "NaN");
    push_text(out, "999999999999999999999999999999");
    assert(texts_view(out@) =~= texts_view(old(out)@) + texts_codepoints(number_texts()));
}

fn push_symbol_texts(out: &mut Vec<Vec<u32>>)
    ensures
        texts_view(final(out)@) == texts_view(old(out)@) + texts_codepoints(symbol_texts()),
{
    push_text(out, ",./;'[]\\-=<>?:\"{}|_+!@#$%^&*()`~");
    push_text(out, "Ω≈ç√∫˜µ≤≥÷åß∂ƒ©˙∆˚¬…æœ∑´®†¥¨ˆøπ\u{201C}\u{2018}¡™£¢∞§¶•ªº–≠¸˛Ç◊ı˜Â¯˘¿ÅÍÎÏ˝ÓÔÒÚÆ☃Œ„´‰ˇÁ¨ˆØ∏\u{201D}\u{2019}`⁄€‹›ﬁﬂ‡°·‚—±");
    push_text(out, "Ⱥ");
    push_text(out, "Ⱦ");
    push_text(out, "æœÆŒﬀʤʨß");
    push_text(out, "(╯°□°）╯︵ ┻━┻)");
    push_text(out, "😍");
    push_text(out, "🇺🇸");
    push_text(out, "🏻");
    push_text(out, "👍🏻");
    push_text(out, "الكل في المجمو عة");
    push_text(out, "᚛ᚄᚓᚐᚋᚒᚄ ᚑᚄᚂᚑᚏᚅ᚜");
    push_text(out, "กา");
    push_text(out, "ก ำกำ");
    assert(texts_view(out@) =~= texts_view(old(out)@) + texts_codepoints(symbol_texts()));
}

fn push_script_texts(out: &mut Vec<Vec<u32>>)
    ensures
        texts_view(final(out)@) == texts_view(old(out)@) + texts_codepoints(script_texts()),
{
    push_text(out, "𝐓𝐡𝐞 𝐪𝐮𝐢𝐜𝐤 𝐛𝐫𝐨𝐰𝐧 𝐟𝐨𝐱 𝐣𝐮𝐦𝐩𝐬 𝐨𝐯𝐞𝐫 𝐭𝐡𝐞 𝐥𝐚𝐳𝐲 𝐝𝐨𝐠");
    push_text(out, "𝕿𝖍𝖊 𝖖𝖚𝖎𝖈𝖐 𝖇𝖗𝖔𝖜𝖓 𝖋𝖔𝖝 𝖏𝖚𝖒𝖕𝖘 𝖔𝖛𝖊𝖗 𝖙𝖍𝖊 𝖑𝖆𝖟𝖞 𝖉𝖔𝖌");
    push_text(out, "𝑻𝒉𝒆 𝒒𝒖𝒊𝒄𝒌 𝒃𝒓𝒐𝒘𝒏 𝒇𝒐𝒙 𝒋𝒖𝒎𝒑𝒔 𝒐𝒗𝒆𝒓 𝒕𝒉𝒆 𝒍𝒂𝒛𝒚 𝒅𝒐𝒈");
    push_text(out, "𝓣𝓱𝓮 𝓺𝓾𝓲𝓬𝓴 𝓫𝓻𝓸𝔀𝓷 𝓯𝓸𝔁 𝓳𝓾𝓶𝓹𝓼 𝓸𝓿𝓮𝓻 𝓽𝓱𝓮 𝓵𝓪𝔃𝔂 𝓭𝓸𝓰");
    push_text(out, "𝕋𝕙𝕖 𝕢𝕦𝕚𝕔𝕜 𝕓𝕣𝕠𝕨𝕟 𝕗𝕠𝕩 𝕛𝕦𝕞𝕡𝕤 𝕠𝕧𝕖𝕣 𝕥𝕙𝕖 𝕝𝕒𝕫𝕪 𝕕𝕠𝕘");
    push_text(out, "ʇǝɯɐ ʇᴉs ɹolop ɯnsdᴉ ɯǝɹo˥");
    push_text(out, "NUL");
    push_text(out, "COM1");
    push_text(out, "LPT1");
    push_text(out, "Scunthorpe");
    push_text(out, "Ṱ̺̺̕o͞ ̷i̲̬͇̪͙n̝̗͕v̟̜̘̦͟o̶̙̰̠kè͚̮̺̪̹̱̤ ̖t̝͕̳̣̻̪͞h̼͓̲̦̳̘̲e͇̣̰̦̬͎ ̢̼̻̱̘h͚͎͙̜̣̲ͅi̦̲̣̰̤v̻͍e̺̭̳̪̰-m̢iͅn̖̺̞̲̯̰d̵̼̟͙̩̼̘̳ ̞̥̱̳̭r̛̗̘e͙p͠r̼̞̻̭̗e̺̠̣͟s̘͇̳͍̝͉e͉̥̯̞̲͚̬͜ǹ̬͎͎̟̖͇̤t͍̬̤͓̼̭͘ͅi̪̱n͠g̴͉ ͏͉ͅc̬̟h͡a̫̻̯͘o̫̟̖͍̙̝͉s̗̦̲.̨̹͈̣");
    push_text(out, "मनीष منش");
    push_text(out, "पन्ह पन्ह त्र र्च कृकृ ड्ड न्हृे إلا بسم الله");
    push_text(out, "lorem لا بسم الله ipsum 你好1234你好");
    push_text(out, "a\u{000A}b\u{000D}c\u{0085}d\u{000B}e\u{000C}f\u{2028}g\u{2029}h\u{000D}\u{000A}i");
    assert(texts_view(out@) =~= texts_view(old(out)@) + texts_codepoints(script_texts()));
}

/// The codepoints of the constant texts.
pub fn global_constants_strings() -> (r: Vec<Vec<u32>>)
    ensures
        texts_view(r@) == texts_codepoints(constant_texts()),
{
    let mut out: Vec<Vec<u32>> = Vec::new();
    push_keyword_texts(&mut out);
    push_number_texts(&mut out);
    push_symbol_texts(&mut out);
    push_script_texts(&mut out);
    assert(texts_view(out@) =~= texts_codepoints(constant_texts()));
    out
}

/// The constant texts, made once.
pub struct TextPool {
    texts: Vec<Vec<u32>>,
}

impl TextPool {
    #[verifier::type_invariant]
    closed spec fn complete(self) -> bool {
        texts_view(self.texts@) == texts_codepoints(constant_texts())
    }

    /// The texts.
    pub fn new() -> (r: Self) {
        TextPool { texts: global_constants_strings() }
    }

    /// The codepoints of the texts.
    pub fn texts(&self) -> (r: &Vec<Vec<u32>>)
        ensures
            texts_view(r@) == texts_codepoints(constant_texts()),
    {
        proof {
            use_type_invariant(self);
        }
        &self.texts
    }
}

} // verus!
