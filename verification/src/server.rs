//! Server-side pieces: the static-file server's configuration, the
//! notes document rendered from Markdown, and the assembly of
//! per-slide HTML documents from extracted fragments. Reading and
//! writing files, and serving HTTP, are outside work done by the
//! program around this library.

use vstd::prelude::*;
use vstd::string::StringExecFns;
use vstd::string::StringSliceAdditionalSpecFns;
use crate::steps::{spec_parse_number, parse_number, is_space_byte};

verus! {

/// Static-file server configuration.
pub struct Server {
    static_dir: String,
}

impl Server {
    /// The directory whose files the server will serve.
    pub closed spec fn spec_static_dir(&self) -> Seq<char> {
        self.static_dir@
    }

    pub fn new(static_dir: String) -> (r: Server)
        ensures
            r.spec_static_dir() == static_dir@,
    {
        Server { static_dir }
    }

    pub fn static_dir(&self) -> (r: &str)
        ensures
            r@ == self.spec_static_dir(),
    {
        self.static_dir.as_str()
    }
}

/// Why the server could not start.
pub enum ServerStartError {
    /// The bind address was invalid or unavailable; the payload is
    /// the underlying cause's description.
    InvalidAddress(String),
}

impl ServerStartError {
    /// A short human-readable description of the failure.
    pub fn message(&self) -> (r: &str)
        ensures
            r@ == "Invalid address to bind to"@,
    {
        match self {
            ServerStartError::InvalidAddress(_) => "Invalid address to bind to",
        }
    }
}

/// The result of comrak's Markdown renderer: a function of the input
/// text alone (under the default options).
pub uninterp spec fn markdown_html_of(input: Seq<char>) -> Seq<char>;

/// Relies on `comrak::markdown_to_html` with default options: pure
/// rendering of Markdown text to an HTML fragment.
#[verifier::external_body]
fn render_markdown(input: &str) -> (r: String)
    ensures
        r@ == markdown_html_of(input@),
{
    comrak::markdown_to_html(input, &comrak::Options::default())
}

/// The speaker-notes document: one HTML page rendered from Markdown,
/// and an optional style sheet once steps have been annotated.
pub struct Notes {
    output: String,
    style: Option<String>,
}

impl Notes {
    pub closed spec fn spec_output(&self) -> Seq<char> {
        self.output@
    }

    pub closed spec fn spec_style(&self) -> Option<Seq<char>> {
        match self.style {
            Some(ref s) => Some(s@),
            None => None,
        }
    }

    /// Renders the notes from their Markdown source: the rendered
    /// fragment wrapped in a root `div`.
    pub fn from_markdown(markdown: &str) -> (r: Notes)
        ensures
            r.spec_output() == "<div>"@ + markdown_html_of(markdown@) + "</div>"@,
            r.spec_style() is None,
    {
        let html = render_markdown(markdown);
        let mut output = String::from_str("<div>");
        output.append(html.as_str());
        output.append("</div>");
        Notes { output, style: None }
    }

    /// The document's HTML text.
    pub fn html_str(&self) -> (r: &str)
        ensures
            r@ == self.spec_output(),
    {
        self.output.as_str()
    }

    /// Attaches the generated step style sheet for a deck of
    /// `slide_count` slides.
    pub fn set_style_for_slides(&mut self, slide_count: usize)
        ensures
            final(self).spec_output() == old(self).spec_output(),
            final(self).spec_style() == Some(spec_notes_style(slide_count as int)),
    {
        self.style = Some(notes_style_sheet(slide_count));
    }

    /// The generated style sheet, if any.
    pub fn style_str(&self) -> (r: Option<&str>)
        ensures
            match r {
                Some(s) => self.spec_style() == Some(s@),
                None => self.spec_style() is None,
            },
    {
        match &self.style {
            Some(s) => Some(s.as_str()),
            None => None,
        }
    }
}

/// Why the notes pipeline failed; each payload describes the
/// underlying I/O cause.
pub enum NotesError {
    LoadError(String),
    AnimateStepsError(String),
    GenerateHtmlError(String),
}

impl NotesError {
    /// A short human-readable description of the failure.
    pub fn message(&self) -> (r: &str)
        ensures
            self is LoadError ==> r@ == "Failed to load notes"@,
            self is AnimateStepsError ==> r@ == "Failed to animate steps for notes"@,
            self is GenerateHtmlError ==> r@ == "Failed to generate HTML file for notes"@,
    {
        match self {
            NotesError::LoadError(_) => "Failed to load notes",
            NotesError::AnimateStepsError(_) => "Failed to animate steps for notes",
            NotesError::GenerateHtmlError(_) => "Failed to generate HTML file for notes",
        }
    }
}

/// Why slide assembly or the slide files failed; each payload
/// describes the underlying I/O cause.
pub enum SlidesError {
    FromNotesError(String),
    SlidesDirectoryError(String),
    LoadSlide(String),
    WriteError(String),
}

impl SlidesError {
    /// A short human-readable description of the failure.
    pub fn message(&self) -> (r: &str)
        ensures
            self is FromNotesError ==> r@ == "Failed to parse slides from notes"@,
            self is SlidesDirectoryError ==> r@ == "Failed to read slides from directory"@,
            self is LoadSlide ==> r@ == "Failed to read slide file"@,
            self is WriteError ==> r@ == "Failed to write slide"@,
    {
        match self {
            SlidesError::FromNotesError(_) => "Failed to parse slides from notes",
            SlidesError::SlidesDirectoryError(_) => "Failed to read slides from directory",
            SlidesError::LoadSlide(_) => "Failed to read slide file",
            SlidesError::WriteError(_) => "Failed to write slide",
        }
    }
}

/// The largest slide number among extracted fragments, 0 when there
/// is none.
pub open spec fn spec_max_slide_number(parts: Seq<(usize, String)>) -> int
    decreases parts.len(),
{
    if parts.len() == 0 {
        0
    } else {
        let rest = spec_max_slide_number(parts.drop_last());
        if parts.last().0 > rest {
            parts.last().0 as int
        } else {
            rest
        }
    }
}

/// The concatenation, in order, of the fragments numbered `n`.
pub open spec fn spec_fragments_for(parts: Seq<(usize, String)>, n: int) -> Seq<char>
    decreases parts.len(),
{
    if parts.len() == 0 {
        Seq::empty()
    } else {
        let rest = spec_fragments_for(parts.drop_last(), n);
        if parts.last().0 == n {
            rest + parts.last().1@
        } else {
            rest
        }
    }
}

/// The text of each document in a list of documents.
pub open spec fn spec_docs(v: Seq<String>) -> Seq<Seq<char>> {
    v.map(|i: int, s: String| s@)
}

/// The per-slide HTML documents, in slide order.
pub struct Slides {
    slides: Vec<String>,
}

impl Slides {
    pub closed spec fn spec_slides(&self) -> Seq<Seq<char>> {
        spec_docs(self.slides@)
    }

    /// Assembles the slide documents from numbered fragments (as a
    /// scan of the annotated notes extracts them): one document per
    /// slide number from 1 up to the largest seen, each wrapping the
    /// concatenation of its fragments in a root `div` — an empty one
    /// for a number no fragment names.
    pub fn from_parts(parts: Vec<(usize, String)>) -> (r: Slides)
        requires
            forall|i: int| 0 <= i < parts@.len() ==> (#[trigger] parts@[i]).0 >= 1,
        ensures
            r.spec_slides().len() == spec_max_slide_number(parts@),
            forall|n: int| 1 <= n <= spec_max_slide_number(parts@)
                ==> #[trigger] r.spec_slides()[n - 1] == "<div>"@ + spec_fragments_for(parts@, n)
                    + "</div>"@,
    {
        let mut max: usize = 0;
        let mut i: usize = 0;
        while i < parts.len()
            invariant
                0 <= i <= parts@.len(),
                max as int == spec_max_slide_number(parts@.take(i as int)),
            decreases parts@.len() - i,
        {
            proof {
                assert(parts@.take(i + 1).drop_last() =~= parts@.take(i as int));
                assert(parts@.take(i + 1).last() == parts@[i as int]);
            }
            let (number, _) = &parts[i];
            if *number > max {
                max = *number;
            }
            i = i + 1;
        }
        proof {
            assert(parts@.take(parts@.len() as int) =~= parts@);
        }

        let mut slides: Vec<String> = Vec::new();
        let mut c: usize = 0;
        while c < max
            invariant
                0 <= c <= max,
                max as int == spec_max_slide_number(parts@),
                slides@.len() == c,
                forall|k: int| 1 <= k <= c
                    ==> #[trigger] spec_docs(slides@)[k - 1] == "<div>"@
                        + spec_fragments_for(parts@, k) + "</div>"@,
            decreases max - c,
        {
            let n = c + 1;
            let mut document = String::from_str("<div>");
            let mut j: usize = 0;
            while j < parts.len()
                invariant
                    0 <= j <= parts@.len(),
                    document@ == "<div>"@ + spec_fragments_for(parts@.take(j as int), n as int),
                decreases parts@.len() - j,
            {
                proof {
                    assert(parts@.take(j + 1).drop_last() =~= parts@.take(j as int));
                    assert(parts@.take(j + 1).last() == parts@[j as int]);
                }
                let (number, fragment) = &parts[j];
                if *number == n {
                    document.append(fragment.as_str());
                }
                j = j + 1;
            }
            proof {
                assert(parts@.take(parts@.len() as int) =~= parts@);
            }
            document.append("</div>");
            let ghost pre = slides@;
            let ghost doc_view = document@;
            slides.push(document);
            proof {
                assert(spec_docs(slides@)[n - 1] == doc_view);
                assert forall|k: int| 1 <= k < n implies #[trigger] spec_docs(slides@)[k - 1]
                    == "<div>"@ + spec_fragments_for(parts@, k) + "</div>"@ by {
                    assert(slides@[k - 1] == pre[k - 1]);
                    assert(spec_docs(pre)[k - 1] == pre[k - 1]@);
                };
            }
            c = c + 1;
        }
        Slides { slides }
    }

    /// How many slides there are.
    pub fn len(&self) -> (r: usize)
        ensures
            r == self.spec_slides().len(),
    {
        self.slides.len()
    }

    /// The HTML document of slide `number` (1-based).
    pub fn slide_html(&self, number: usize) -> (r: Option<&str>)
        ensures
            1 <= number <= self.spec_slides().len() ==> r is Some
                && r->0@ == self.spec_slides()[number - 1],
            !(1 <= number <= self.spec_slides().len()) ==> r is None,
    {
        if number >= 1 && number <= self.slides.len() {
            Some(self.slides[number - 1].as_str())
        } else {
            None
        }
    }
}

/// The slide number a slide file's name denotes: the decimal stem of
/// an `.html` file, as the slide directory is scanned.
pub open spec fn spec_slide_file_number(name: Seq<u8>) -> Option<usize> {
    if name.len() >= 5 && name.subrange(name.len() - 5, name.len() as int) == ".html"@.map(
        |i: int, c: char| c as u8,
    ) {
        spec_parse_number(name.subrange(0, name.len() - 5))
    } else {
        None
    }
}

/// Parses a slide file's name: `<number>.html` gives the number, any
/// other name is not a slide file.
pub fn slide_file_number(name: &str) -> (r: Option<usize>)
    ensures
        r == spec_slide_file_number(name.spec_bytes()),
{
    let bytes: &[u8] = name.as_bytes();
    let n = bytes.len();
    if n < 5 {
        return None;
    }
    let suffix_ok = bytes[n - 5] == 46 && bytes[n - 4] == 104 && bytes[n - 3] == 116
        && bytes[n - 2] == 109 && bytes[n - 1] == 108;
    proof {
        let ext = ".html"@.map(|i: int, c: char| c as u8);
        reveal_strlit(".html");
        assert(ext.len() == 5);
        assert(ext[0] == 46 && ext[1] == 104 && ext[2] == 116 && ext[3] == 109 && ext[4] == 108);
        let tail = bytes@.subrange(n - 5, n as int);
        assert(suffix_ok ==> tail =~= ext);
        assert(tail.len() == 5);
        assert(!suffix_ok ==> tail != ext) by {
            if tail == ext {
                assert(tail[0] == 46 && tail[1] == 104 && tail[2] == 116 && tail[3] == 109
                    && tail[4] == 108);
            }
        }
    }
    if !suffix_ok {
        return None;
    }
    parse_number(bytes, 0, n - 5)
}

/// The decimal digits of `n`, most significant first.
pub open spec fn spec_decimal_chars(n: int) -> Seq<char>
    decreases n,
{
    if n < 10 {
        seq![spec_digit_char(n)]
    } else {
        spec_decimal_chars(n / 10) + seq![spec_digit_char(n % 10)]
    }
}

/// The character of one decimal digit.
pub open spec fn spec_digit_char(d: int) -> char {
    if d == 0 { '0' }
    else if d == 1 { '1' }
    else if d == 2 { '2' }
    else if d == 3 { '3' }
    else if d == 4 { '4' }
    else if d == 5 { '5' }
    else if d == 6 { '6' }
    else if d == 7 { '7' }
    else if d == 8 { '8' }
    else { '9' }
}

/// One decimal digit as text.
fn digit_str(d: usize) -> (r: &'static str)
    requires
        d < 10,
    ensures
        r@ == seq![spec_digit_char(d as int)],
{
    proof {
        reveal_strlit("0");
        reveal_strlit("1");
        reveal_strlit("2");
        reveal_strlit("3");
        reveal_strlit("4");
        reveal_strlit("5");
        reveal_strlit("6");
        reveal_strlit("7");
        reveal_strlit("8");
        reveal_strlit("9");
    }
    match d {
        0 => "0",
        1 => "1",
        2 => "2",
        3 => "3",
        4 => "4",
        5 => "5",
        6 => "6",
        7 => "7",
        8 => "8",
        _ => "9",
    }
}

/// Appends the decimal rendering of `n`.
fn push_decimal(n: usize, out: &mut String)
    ensures
        final(out)@ == old(out)@ + spec_decimal_chars(n as int),
    decreases n,
{
    if n >= 10 {
        push_decimal(n / 10, out);
    }
    out.append(digit_str(n % 10));
    proof {
        if n < 10 {
            assert(n as int % 10 == n as int);
        }
    }
}

/// The path a slide's content is fetched from: the slide index (and
/// an optional locale segment) under the slides directory.
pub open spec fn spec_slide_path(locale: Option<Seq<char>>, index: usize) -> Seq<char> {
    "/slides/"@ + (match locale {
        Some(l) => l + "/"@,
        None => Seq::empty(),
    }) + spec_decimal_chars(index as int) + ".html"@
}

/// Builds the path of slide `index`'s content document, with the
/// locale as an optional extra path segment.
pub fn slide_resource_path(locale: Option<&str>, index: usize) -> (r: String)
    ensures
        r@ == spec_slide_path(
            match locale {
                Some(l) => Some(l@),
                None => None,
            },
            index,
        ),
{
    let mut path = String::from_str("/slides/");
    if let Some(l) = locale {
        path.append(l);
        path.append("/");
    }
    push_decimal(index, &mut path);
    path.append(".html");
    path
}

pub open spec fn is_first_space(s: Seq<u8>, i: int) -> bool {
    &&& 0 <= i < s.len()
    &&& is_space_byte(s[i])
    &&& forall|j: int| 0 <= j < i ==> !is_space_byte(s[j])
}

proof fn lemma_first_space_exists_aux(s: Seq<u8>, w: int)
    requires
        0 <= w < s.len(),
        is_space_byte(s[w]),
    ensures
        exists|i: int| is_first_space(s, i),
    decreases w,
{
    if forall|j: int| 0 <= j < w ==> !is_space_byte(s[j]) {
        assert(is_first_space(s, w));
    } else {
        let j = choose|j: int| 0 <= j < w && is_space_byte(s[j]);
        lemma_first_space_exists_aux(s, j);
    }
}

proof fn lemma_first_space_unique(s: Seq<u8>, i: int, j: int)
    requires
        is_first_space(s, i),
        is_first_space(s, j),
    ensures
        i == j,
{
}

/// The whitespace-separated tokens of `s`, as `split_whitespace`
/// yields them: maximal runs of non-space bytes, with no empty
/// tokens.
pub open spec fn spec_ws_split(s: Seq<u8>) -> Seq<Seq<u8>>
    decreases s.len(),
{
    if s.len() == 0 {
        Seq::empty()
    } else if is_space_byte(s[0]) {
        spec_ws_split(s.subrange(1, s.len() as int))
    } else if exists|i: int| is_first_space(s, i) {
        let i = choose|i: int| is_first_space(s, i);
        if 0 < i < s.len() {
            seq![s.subrange(0, i)] + spec_ws_split(s.subrange(i, s.len() as int))
        } else {
            seq![s]
        }
    } else {
        seq![s]
    }
}

/// Whether a class token carries the `slide-` prefix.
pub open spec fn spec_slide_prefix(t: Seq<u8>) -> bool {
    &&& t.len() >= 6
    &&& t[0] == 115
    &&& t[1] == 108
    &&& t[2] == 105
    &&& t[3] == 100
    &&& t[4] == 101
    &&& t[5] == 45
}

/// Whether a class token carries the longer `slide-step-` prefix,
/// which names a step annotation, not a slide.
pub open spec fn spec_slide_step_prefix(t: Seq<u8>) -> bool {
    &&& spec_slide_prefix(t)
    &&& t.len() >= 11
    &&& t[6] == 115
    &&& t[7] == 116
    &&& t[8] == 101
    &&& t[9] == 112
    &&& t[10] == 45
}

/// The first token naming a slide (prefixed `slide-` but not
/// `slide-step-`), if any.
pub open spec fn spec_first_slide_token(tokens: Seq<Seq<u8>>) -> Option<Seq<u8>>
    decreases tokens.len(),
{
    if tokens.len() == 0 {
        None
    } else if spec_slide_prefix(tokens[0]) && !spec_slide_step_prefix(tokens[0]) {
        Some(tokens[0])
    } else {
        spec_first_slide_token(tokens.subrange(1, tokens.len() as int))
    }
}

/// The slide number a class attribute assigns: the decimal tail of
/// the first `slide-N` class (a `slide-step-M` class does not
/// count), when that tail parses.
pub open spec fn spec_slide_number_of_class(s: Seq<u8>) -> Option<usize> {
    match spec_first_slide_token(spec_ws_split(s)) {
        Some(t) => spec_parse_number(t.subrange(6, t.len() as int)),
        None => None,
    }
}

/// Reads the slide number out of an element's class attribute, as
/// the notes scan assigns it: the number behind the first `slide-`
/// class that is not a `slide-step-` class.
pub fn slide_number_of_class(class: &str) -> (r: Option<usize>)
    ensures
        r == spec_slide_number_of_class(class.spec_bytes()),
{
    let bytes: &[u8] = class.as_bytes();
    let n = bytes.len();
    let ghost full = class.spec_bytes();
    let mut pos: usize = 0;
    proof {
        assert(bytes@.subrange(0, n as int) =~= full);
    }
    loop
        invariant
            0 <= pos <= n == bytes@.len(),
            full == bytes@,
            full == class.spec_bytes(),
            spec_first_slide_token(spec_ws_split(full)) == spec_first_slide_token(
                spec_ws_split(bytes@.subrange(pos as int, n as int)),
            ),
        decreases n - pos,
    {
        let ghost rem0 = bytes@.subrange(pos as int, n as int);
        // Skip whitespace before the next token.
        let mut p = pos;
        while p < n && crate::steps::is_space(bytes[p])
            invariant
                pos <= p <= n == bytes@.len(),
                spec_ws_split(bytes@.subrange(pos as int, n as int)) == spec_ws_split(
                    bytes@.subrange(p as int, n as int),
                ),
            decreases n - p,
        {
            proof {
                let rem = bytes@.subrange(p as int, n as int);
                assert(rem.len() > 0 && is_space_byte(rem[0]));
                assert(rem.subrange(1, rem.len() as int) =~= bytes@.subrange(p + 1, n as int));
            }
            p = p + 1;
        }
        pos = p;
        if pos == n {
            proof {
                assert(bytes@.subrange(pos as int, n as int) =~= Seq::<u8>::empty());
            }
            return None;
        }
        let ghost rem = bytes@.subrange(pos as int, n as int);
        // Scan the token.
        let mut q = pos;
        while q < n && !crate::steps::is_space(bytes[q])
            invariant
                pos <= q <= n == bytes@.len(),
                forall|j: int| pos <= j < q ==> !is_space_byte(bytes@[j]),
            decreases n - q,
        {
            q = q + 1;
        }
        let ghost t = bytes@.subrange(pos as int, q as int);
        let ghost rest = bytes@.subrange(q as int, n as int);
        proof {
            assert(!is_space_byte(rem[0]));
            if q < n {
                assert(is_space_byte(bytes@[q as int]));
                assert(is_first_space(rem, q - pos)) by {
                    assert(forall|j: int| 0 <= j < q - pos
                        ==> rem[j] == bytes@[pos + j] && !is_space_byte(rem[j]));
                }
                lemma_first_space_exists_aux(rem, q - pos);
                lemma_first_space_unique(rem, choose|i: int| is_first_space(rem, i), q - pos);
                assert(rem.subrange(0, q - pos) =~= t);
                assert(rem.subrange(q - pos, rem.len() as int) =~= rest);
                assert(spec_ws_split(rem) == seq![t] + spec_ws_split(rest));
            } else {
                assert(forall|j: int| 0 <= j < rem.len()
                    ==> rem[j] == bytes@[pos + j] && !is_space_byte(rem[j]));
                assert(!(exists|i: int| is_first_space(rem, i)));
                assert(rem =~= t);
                assert(rest =~= Seq::<u8>::empty());
                assert(spec_ws_split(rem) == seq![t]);
                assert(seq![t] =~= seq![t] + spec_ws_split(rest));
            }
            assert((seq![t] + spec_ws_split(rest))[0] == t);
            assert((seq![t] + spec_ws_split(rest)).subrange(
                1,
                (seq![t] + spec_ws_split(rest)).len() as int,
            ) =~= spec_ws_split(rest));
        }
        // Test the token for the slide prefix.
        let is_slide = q - pos >= 6 && bytes[pos] == 115 && bytes[pos + 1] == 108
            && bytes[pos + 2] == 105 && bytes[pos + 3] == 100 && bytes[pos + 4] == 101
            && bytes[pos + 5] == 45;
        let is_step = is_slide && q - pos >= 11 && bytes[pos + 6] == 115
            && bytes[pos + 7] == 116 && bytes[pos + 8] == 101 && bytes[pos + 9] == 112
            && bytes[pos + 10] == 45;
        proof {
            assert(forall|j: int| 0 <= j < t.len() ==> t[j] == bytes@[pos + j]);
            assert(is_slide == spec_slide_prefix(t));
            assert(is_step == spec_slide_step_prefix(t));
        }
        if is_slide && !is_step {
            let number = parse_number(bytes, pos + 6, q);
            proof {
                assert(t.subrange(6, t.len() as int) =~= bytes@.subrange(pos + 6, q as int));
            }
            return number;
        }
        pos = q;
    }
}

/// The class annotation the notes scan gives an element on slide
/// `slide`: the slide class alone before the first step, then the
/// slide and step classes.
pub open spec fn spec_step_classes(slide: int, step: int) -> Seq<char> {
    if step > 0 {
        "slide-"@ + spec_decimal_chars(slide) + " slide-step-"@ + spec_decimal_chars(step)
    } else {
        "slide-"@ + spec_decimal_chars(slide)
    }
}

/// Renders the class annotation for an element of the notes on
/// slide `slide` at step `step` (0 while no step has begun).
pub fn step_classes(slide: usize, step: usize) -> (r: String)
    ensures
        r@ == spec_step_classes(slide as int, step as int),
{
    let mut classes = String::from_str("slide-");
    push_decimal(slide, &mut classes);
    if step > 0 {
        classes.append(" slide-step-");
        push_decimal(step, &mut classes);
    }
    classes
}


/// How the notes scan advances its counters at an element: an `h1`,
/// `h2` or `h3` heading begins the next slide at step 0, a list item
/// begins the next step, anything else changes nothing.
pub open spec fn spec_scan_note_element(tag: Seq<char>, slide: int, step: int) -> (int, int) {
    if tag == "h1"@ || tag == "h2"@ || tag == "h3"@ {
        (slide + 1, 0)
    } else if tag == "li"@ {
        (slide, step + 1)
    } else {
        (slide, step)
    }
}

/// Advances the notes scan's slide and step counters over an element
/// with the given tag name.
pub fn scan_note_element(tag: &str, slide: usize, step: usize) -> (r: (usize, usize))
    requires
        slide < usize::MAX,
        step < usize::MAX,
    ensures
        (r.0 as int, r.1 as int) == spec_scan_note_element(tag@, slide as int, step as int),
{
    if crate::input::str_eq(tag, "h1") || crate::input::str_eq(tag, "h2")
        || crate::input::str_eq(tag, "h3") {
        (slide + 1, 0)
    } else if crate::input::str_eq(tag, "li") {
        (slide, step + 1)
    } else {
        (slide, step)
    }
}

/// One rule hiding slide `j`'s notes while slide `i` is current.
pub open spec fn spec_hide_rule(i: int, j: int) -> Seq<char> {
    "div.current-slide-"@ + spec_decimal_chars(i) + " .slide-"@ + spec_decimal_chars(j)
        + " { display: none; }"@
}

/// The hide rules for slide `i` against slides 1 through `j`,
/// skipping `i` itself.
pub open spec fn spec_hide_row(i: int, j: int) -> Seq<char>
    decreases j,
{
    if j < 1 {
        Seq::empty()
    } else {
        spec_hide_row(i, j - 1) + (if j == i {
            Seq::empty()
        } else {
            spec_hide_rule(i, j)
        })
    }
}

/// The hide rules for slides 1 through `i`, each against `count`
/// slides.
pub open spec fn spec_hide_rules(i: int, count: int) -> Seq<char>
    decreases i,
{
    if i < 1 {
        Seq::empty()
    } else {
        spec_hide_rules(i - 1, count) + spec_hide_row(i, count)
    }
}

/// One rule styling step `j`'s notes while step `i` is current: the
/// current step is visible in black, earlier steps are dimmed, and
/// later steps are hidden.
pub open spec fn spec_step_rule(i: int, j: int) -> Seq<char> {
    "div.current-slide-step-"@ + spec_decimal_chars(i) + " .slide-step-"@
        + spec_decimal_chars(j) + " "@ + (if i == j {
        "{ color: black; visibility: visible; }"@
    } else if i > j {
        "{ color: lightgray; }"@
    } else {
        "{ visibility: hidden; }"@
    })
}

/// The step rules for step `i` against steps 1 through `j`.
pub open spec fn spec_step_row(i: int, j: int) -> Seq<char>
    decreases j,
{
    if j < 1 {
        Seq::empty()
    } else {
        spec_step_row(i, j - 1) + spec_step_rule(i, j)
    }
}

/// The step rules for steps 1 through `i`, each against `count`
/// steps.
pub open spec fn spec_step_rules(i: int, count: int) -> Seq<char>
    decreases i,
{
    if i < 1 {
        Seq::empty()
    } else {
        spec_step_rules(i - 1, count) + spec_step_row(i, count)
    }
}

/// How many steps the generated style sheet distinguishes.
pub const STYLED_STEPS: usize = 20;

/// The whole generated style sheet: the cross-slide hide rules
/// followed by the per-step visibility rules.
pub open spec fn spec_notes_style(slide_count: int) -> Seq<char> {
    spec_hide_rules(slide_count, slide_count) + spec_step_rules(
        STYLED_STEPS as int,
        STYLED_STEPS as int,
    )
}

/// Appends one cross-slide hide rule.
fn push_hide_rule(si: usize, sj: usize, out: &mut String)
    ensures
        final(out)@ == old(out)@ + spec_hide_rule(si as int, sj as int),
{
    out.append("div.current-slide-");
    push_decimal(si, out);
    out.append(" .slide-");
    push_decimal(sj, out);
    out.append(" { display: none; }");
}

/// Appends one per-step visibility rule.
fn push_step_rule(si: usize, sj: usize, out: &mut String)
    ensures
        final(out)@ == old(out)@ + spec_step_rule(si as int, sj as int),
{
    out.append("div.current-slide-step-");
    push_decimal(si, out);
    out.append(" .slide-step-");
    push_decimal(sj, out);
    out.append(" ");
    if si == sj {
        out.append("{ color: black; visibility: visible; }");
    } else if si > sj {
        out.append("{ color: lightgray; }");
    } else {
        out.append("{ visibility: hidden; }");
    }
}

/// Generates the style sheet that drives the notes display: while
/// slide `i` is current every other slide's notes are hidden, and
/// within a slide the current step is shown black, earlier steps
/// dimmed, later steps hidden.
pub fn notes_style_sheet(slide_count: usize) -> (r: String)
    ensures
        r@ == spec_notes_style(slide_count as int),
{
    let mut style = String::new();
    let mut i: usize = 0;
    while i < slide_count
        invariant
            0 <= i <= slide_count,
            style@ == spec_hide_rules(i as int, slide_count as int),
        decreases slide_count - i,
    {
        let ghost row_start = style@;
        let si = i + 1;
        let mut j: usize = 0;
        while j < slide_count
            invariant
                0 <= j <= slide_count,
                si == i + 1,
                style@ == row_start + spec_hide_row(si as int, j as int),
            decreases slide_count - j,
        {
            let sj = j + 1;
            if si != sj {
                push_hide_rule(si, sj, &mut style);
            }
            j = j + 1;
        }
        i = i + 1;
    }
    let mut i: usize = 0;
    while i < STYLED_STEPS
        invariant
            0 <= i <= STYLED_STEPS,
            style@ == spec_hide_rules(slide_count as int, slide_count as int)
                + spec_step_rules(i as int, STYLED_STEPS as int),
        decreases STYLED_STEPS - i,
    {
        let ghost row_start = style@;
        let si = i + 1;
        let mut j: usize = 0;
        while j < STYLED_STEPS
            invariant
                0 <= j <= STYLED_STEPS,
                si == i + 1,
                style@ == row_start + spec_step_row(si as int, j as int),
            decreases STYLED_STEPS - j,
        {
            let sj = j + 1;
            push_step_rule(si, sj, &mut style);
            j = j + 1;
        }
        i = i + 1;
    }
    style
}


} // verus!
