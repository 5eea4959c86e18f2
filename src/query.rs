use vstd::prelude::*;
use crate::command::{bare_word, classify_word, command_of, Command};
use crate::directory::{first_word, has_key, lookup, Directory, Person, PersonView};
use crate::normalize::{fold, fold_transliterated, transliterate};
use crate::roman::{roman, roman_text};
use crate::text::{
    plain_ascii, all_digits, contains, decimal, decimal_digits, digit_char, digit_value, digits_value,
    find_in, is_ws, lemma_digit_char, lemma_upper_of_lower, lemma_words_of_pair, lower, push_char,
    push_chars, scan_number, signed_value, slice_chars, split_words, string_of, upper, views, words,
};

verus! {

/// The reply when a search finds nothing.
pub const NOT_FOUND: &'static str = "No encontré lo que buscas...\nIntenta de nuevo.";

/// The reply to a message whose command is not known.
pub const NOT_UNDERSTOOD: &'static str = "No te entendí...\nIntenta de nuevo o usa \"/h\" para ayuda.";

/// The reply to a request for help.
pub const HELP: &'static str = "Para buscar por... 
- Clave usa /clave ó /c más las claves.
- Nombre usa /nombre ó /n más los nombres.
- Apellido usa /apellido ó /a más los apellidos.
- Generaciones enteras usa /gen ó /g más las generaciones. 
Búsquedas incluyen azules e internos. 

Ejemplo
/g 32 33
/clave a101 A007 A010*
/c A342 A225 cKGr
/n Sam Pedro
/a castillo

Código Fuente: https://github.com/mucinoab/SistemedicBotRust";

/// The reply to a first message.
pub const START: &'static str = "Para buscar...
- Clave usa /clave más las claves. 
- Generación entera /gen más la generación.
- Nombre usa /nombre más los nombres.
- Apellido usa /apellido más los apellidos.

Búsquedas incluyen azules e internos. 

Ejemplo
/clave A101 A027 A010* cKGr 
/nombre Luis Karol
/gen 32
/apellido Soriano

Para ayuda usa /help
Comparte con https://t.me/sistemedicbot";

/// The lowest cohort that generation queries accept.
pub const FIRST_GENERATION: i8 = 16;

/// The highest cohort that generation queries accept.
pub const LAST_GENERATION: i8 = 33;

/// The generation of a person as shown: Roman letters, or nothing for a
/// negative value.
pub open spec fn generation_text(g: int) -> Seq<char> {
    if g >= 0 {
        roman_text(g as nat)
    } else {
        Seq::empty()
    }
}

/// The line for a person found by code.
pub open spec fn code_line(k: Seq<char>, p: PersonView) -> Seq<char> {
    k + "  "@ + p.given_name + " "@ + first_word(p.surnames) + ", gen "@ + generation_text(p.generation) + "\n"@
}

/// One line for each word that is a key, in the order of the words.
pub open spec fn code_reply(es: Seq<(Seq<char>, PersonView)>, ts: Seq<Seq<char>>) -> Seq<char>
    decreases ts.len(),
{
    if ts.len() == 0 {
        Seq::empty()
    } else {
        code_reply(es, ts.drop_last()) + match lookup(es, ts.last()) {
            Some(p) => code_line(ts.last(), p),
            None => Seq::empty(),
        }
    }
}

/// The folded text that a name or surname search looks in.
pub open spec fn searched_text(p: PersonView, by_surname: bool) -> Seq<char> {
    if by_surname {
        fold(p.surnames)
    } else {
        fold(p.given_name)
    }
}

/// Some word longer than two characters stands in the text.
pub open spec fn matches_any(hay: Seq<char>, ts: Seq<Seq<char>>) -> bool {
    exists|j: int| 0 <= j < ts.len() && ts[j].len() > 2 && #[trigger] contains(hay, ts[j])
}

/// The line for a person found by name (showing the surnames) or by
/// surname (showing the name).
pub open spec fn search_line(k: Seq<char>, p: PersonView, by_surname: bool) -> Seq<char> {
    if by_surname {
        k + "  "@ + p.given_name + "\n"@
    } else {
        k + "  "@ + p.surnames + "\n"@
    }
}

/// One line for each person, in the directory's order, whose name (or
/// surnames) holds one of the words longer than two characters.
pub open spec fn search_reply(es: Seq<(Seq<char>, PersonView)>, ts: Seq<Seq<char>>, by_surname: bool) -> Seq<char>
    decreases es.len(),
{
    if es.len() == 0 {
        Seq::empty()
    } else {
        let e = es.last();
        search_reply(es.drop_last(), ts, by_surname) + if matches_any(searched_text(e.1, by_surname), ts) {
            search_line(e.0, e.1, by_surname)
        } else {
            Seq::empty()
        }
    }
}

/// The line for a person found by generation.
pub open spec fn generation_line(k: Seq<char>, p: PersonView) -> Seq<char> {
    k + "  "@ + p.given_name + " "@ + first_word(p.surnames) + "\n"@
}

/// One line for each person of generation `g`, in the directory's order.
pub open spec fn generation_hits(es: Seq<(Seq<char>, PersonView)>, g: int) -> Seq<char>
    decreases es.len(),
{
    if es.len() == 0 {
        Seq::empty()
    } else {
        let e = es.last();
        generation_hits(es.drop_last(), g) + if e.1.generation == g {
            generation_line(e.0, e.1)
        } else {
            Seq::empty()
        }
    }
}

/// The line for a generation outside the accepted range.
pub open spec fn no_data_line(n: int) -> Seq<char> {
    "No tengo datos sobre quien pertenece a la generación "@ + decimal(n) + " :(\n"@
}

pub open spec fn accepted_generation(n: int) -> bool {
    FIRST_GENERATION <= n <= LAST_GENERATION
}

/// What one word of a generation query adds: nothing if it is not a number,
/// the people of that generation if it is accepted, else a line saying that
/// there is no data on it.
pub open spec fn generation_part(es: Seq<(Seq<char>, PersonView)>, w: Seq<char>) -> Seq<char> {
    match signed_value(w) {
        Some(n) => if accepted_generation(n) {
            generation_hits(es, n)
        } else {
            no_data_line(n)
        },
        None => Seq::empty(),
    }
}

/// The parts of a generation query, in the order of its words.
pub open spec fn generation_reply(es: Seq<(Seq<char>, PersonView)>, ts: Seq<Seq<char>>) -> Seq<char>
    decreases ts.len(),
{
    if ts.len() == 0 {
        Seq::empty()
    } else {
        generation_reply(es, ts.drop_last()) + generation_part(es, ts.last())
    }
}

/// What the command of the first word makes of the other words.
pub open spec fn command_body(es: Seq<(Seq<char>, PersonView)>, ws: Seq<Seq<char>>) -> Seq<char> {
    if ws.len() == 0 {
        NOT_UNDERSTOOD@
    } else {
        let rest = ws.drop_first();
        match command_of(ws[0]) {
            Command::ByCode => code_reply(es, rest),
            Command::ByName => search_reply(es, rest, false),
            Command::BySurname => search_reply(es, rest, true),
            Command::ByGeneration => generation_reply(es, rest),
            Command::Help => HELP@,
            Command::Start => START@,
            Command::Unrecognized => NOT_UNDERSTOOD@,
        }
    }
}

/// The reply to a folded message: its command's output, or the not-found
/// text when that is empty.
pub open spec fn reply_to_folded(es: Seq<(Seq<char>, PersonView)>, t: Seq<char>) -> Seq<char> {
    let b = command_body(es, words(t));
    if b.len() == 0 {
        NOT_FOUND@
    } else {
        b
    }
}

/// The reply to a message as it arrives.
pub open spec fn reply(es: Seq<(Seq<char>, PersonView)>, text: Seq<char>) -> Seq<char> {
    reply_to_folded(es, fold(text))
}

fn push_code_line(out: &mut String, k: &String, p: &Person)
    requires
        p.wf(),
    ensures
        final(out)@ == old(out)@ + code_line(k@, p@),
{
    out.append(k.as_str());
    out.append("  ");
    out.append(p.given_name.as_str());
    out.append(" ");
    out.append(p.primary_surname.as_str());
    out.append(", gen ");
    if p.generation >= 0 {
        let r = roman(p.generation);
        out.append(r.as_str());
    }
    out.append("\n");
    assert(out@ =~= old(out)@ + code_line(k@, p@));
}

/// Whether a word longer than two characters stands in the text.
pub fn matches_terms(hay: &[char], ts: &[Vec<char>]) -> (r: bool)
    ensures
        r == matches_any(hay@, views(ts@)),
{
    let mut j: usize = 0;
    while j < ts.len()
        invariant
            j <= ts@.len(),
            forall|l: int| 0 <= l < j ==> !(views(ts@)[l].len() > 2 && #[trigger] contains(hay@, views(ts@)[l])),
        decreases ts.len() - j,
    {
        let t = ts[j].as_slice();
        if t.len() > 2 && find_in(hay, t) {
            assert(views(ts@)[j as int] == t@);
            return true;
        }
        j = j + 1;
    }
    false
}

impl Directory {
    fn push_code_reply(&self, out: &mut String, ts: &[Vec<char>])
        requires
            self.wf(),
        ensures
            final(out)@ == old(out)@ + code_reply(self@, views(ts@)),
    {
        let ghost vs = views(ts@);
        let mut j: usize = 0;
        while j < ts.len()
            invariant
                self.wf(),
                j <= ts@.len(),
                vs == views(ts@),
                out@ == old(out)@ + code_reply(self@, vs.take(j as int)),
            decreases ts.len() - j,
        {
            let key = string_of(ts[j].as_slice());
            assert(vs.take(j + 1).drop_last() =~= vs.take(j as int));
            assert(vs.take(j + 1).last() == key@);
            match self.get_entry(key.as_str()) {
                Some((k, p)) => {
                    push_code_line(out, k, p);
                },
                None => {},
            }
            assert(out@ =~= old(out)@ + code_reply(self@, vs.take(j + 1)));
            j = j + 1;
        }
        assert(vs.take(ts@.len() as int) =~= vs);
    }

    fn push_search_reply(&self, out: &mut String, ts: &[Vec<char>], by_surname: bool)
        requires
            self.wf(),
        ensures
            final(out)@ == old(out)@ + search_reply(self@, views(ts@), by_surname),
    {
        let ghost vs = views(ts@);
        let n = self.len();
        let mut i: usize = 0;
        while i < n
            invariant
                self.wf(),
                n == self@.len(),
                i <= n,
                vs == views(ts@),
                out@ == old(out)@ + search_reply(self@.take(i as int), vs, by_surname),
            decreases n - i,
        {
            let (k, p) = self.entry(i);
            let hay = if by_surname {
                p.folded_surnames.as_slice()
            } else {
                p.folded_name.as_slice()
            };
            let ghost before = out@;
            if matches_terms(hay, ts) {
                out.append(k.as_str());
                out.append("  ");
                if by_surname {
                    out.append(p.given_name.as_str());
                } else {
                    out.append(p.surnames.as_str());
                }
                out.append("\n");
            }
            proof {
                let es = self@.take(i + 1);
                assert(es.drop_last() =~= self@.take(i as int));
                assert(es.last() == self@[i as int]);
                assert(hay@ == searched_text(p@, by_surname));
                assert(out@ =~= before + if matches_any(searched_text(p@, by_surname), vs) {
                    search_line(k@, p@, by_surname)
                } else {
                    Seq::empty()
                });
                assert(out@ =~= old(out)@ + search_reply(es, vs, by_surname));
            }
            i = i + 1;
        }
        assert(self@.take(n as int) =~= self@);
    }

    fn push_generation_hits(&self, out: &mut String, g: i8)
        requires
            self.wf(),
        ensures
            final(out)@ == old(out)@ + generation_hits(self@, g as int),
    {
        let n = self.len();
        let mut i: usize = 0;
        while i < n
            invariant
                self.wf(),
                n == self@.len(),
                i <= n,
                out@ == old(out)@ + generation_hits(self@.take(i as int), g as int),
            decreases n - i,
        {
            let (k, p) = self.entry(i);
            let ghost before = out@;
            if p.generation == g {
                out.append(k.as_str());
                out.append("  ");
                out.append(p.given_name.as_str());
                out.append(" ");
                out.append(p.primary_surname.as_str());
                out.append("\n");
            }
            proof {
                let es = self@.take(i + 1);
                assert(es.drop_last() =~= self@.take(i as int));
                assert(es.last() == self@[i as int]);
                assert(out@ =~= before + if p@.generation == g as int {
                    generation_line(k@, p@)
                } else {
                    Seq::empty()
                });
                assert(out@ =~= old(out)@ + generation_hits(es, g as int));
            }
            i = i + 1;
        }
        assert(self@.take(n as int) =~= self@);
    }

    fn push_generation_reply(&self, out: &mut String, ts: &[Vec<char>])
        requires
            self.wf(),
        ensures
            final(out)@ == old(out)@ + generation_reply(self@, views(ts@)),
    {
        let ghost vs = views(ts@);
        let mut j: usize = 0;
        while j < ts.len()
            invariant
                self.wf(),
                j <= ts@.len(),
                vs == views(ts@),
                out@ == old(out)@ + generation_reply(self@, vs.take(j as int)),
            decreases ts.len() - j,
        {
            let ghost before = out@;
            assert(vs.take(j + 1).drop_last() =~= vs.take(j as int));
            assert(vs.take(j + 1).last() == ts@[j as int]@);
            let w = ts[j].as_slice();
            match scan_number(w) {
                Some((negative, z, m)) => {
                    if !negative && FIRST_GENERATION as u32 <= m && m <= LAST_GENERATION as u32 {
                        self.push_generation_hits(out, m as i8);
                    } else {
                        out.append("No tengo datos sobre quien pertenece a la generación ");
                        if negative {
                            push_char(out, '-');
                        }
                        let digits = slice_chars(w, z, w.len());
                        push_chars(out, digits.as_slice());
                        out.append(" :(\n");
                    }
                },
                None => {},
            }
            assert(out@ =~= before + generation_part(self@, ts@[j as int]@));
            assert(out@ =~= old(out)@ + generation_reply(self@, vs.take(j + 1)));
            j = j + 1;
        }
        assert(vs.take(ts@.len() as int) =~= vs);
    }

    /// The reply to a message that is already transliterated to ASCII.
    pub fn answer(&self, transliterated: &str) -> (r: String)
        requires
            self.wf(),
        ensures
            r@ == reply_to_folded(self@, upper(transliterated@)),
    {
        let t = fold_transliterated(transliterated);
        let mut ws = split_words(t.as_slice());
        let mut out = String::new();
        let ghost all = views(ws@);
        if ws.len() == 0 {
            out.append(NOT_UNDERSTOOD);
        } else {
            let first = ws.remove(0);
            assert(views(ws@) =~= all.drop_first());
            assert(first@ == all[0]);
            match classify_word(first.as_slice()) {
                Command::ByCode => self.push_code_reply(&mut out, ws.as_slice()),
                Command::ByName => self.push_search_reply(&mut out, ws.as_slice(), false),
                Command::BySurname => self.push_search_reply(&mut out, ws.as_slice(), true),
                Command::ByGeneration => self.push_generation_reply(&mut out, ws.as_slice()),
                Command::Help => out.append(HELP),
                Command::Start => out.append(START),
                Command::Unrecognized => out.append(NOT_UNDERSTOOD),
            }
        }
        assert(out@ =~= command_body(self@, words(upper(transliterated@))));
        if out.as_str().unicode_len() == 0 {
            String::from_str(NOT_FOUND)
        } else {
            out
        }
    }

    /// The reply to a message: its command's output, or a fixed text when
    /// there is nothing to show.
    pub fn handle(&self, text: &str) -> (r: String)
        requires
            self.wf(),
        ensures
            r@ == reply(self@, text@),
            plain_ascii(text@) ==> r@ == reply_to_folded(self@, upper(text@)),
    {
        let t = transliterate(text);
        self.answer(t.as_str())
    }
}

proof fn lemma_code_reply_empty(es: Seq<(Seq<char>, PersonView)>, ts: Seq<Seq<char>>)
    requires
        forall|j: int| 0 <= j < ts.len() ==> !has_key(es, #[trigger] ts[j]),
    ensures
        code_reply(es, ts) == Seq::<char>::empty(),
    decreases ts.len(),
{
    if ts.len() > 0 {
        lemma_code_reply_empty(es, ts.drop_last());
        assert(!has_key(es, ts[ts.len() - 1]));
        assert(code_reply(es, ts) =~= Seq::<char>::empty());
    }
}

/// Asking by code for a code of the directory, written in lower case, gives
/// the line of the person stored under it. The message is ASCII, so
/// `handle` gives it the reply stated here.
pub proof fn lemma_code_query_finds_code(d: Directory, k: Seq<char>)
    requires
        d.wf(),
        has_key(d@, k),
        k.len() > 0,
        forall|i: int| 0 <= i < k.len() ==> !is_ws(#[trigger] k[i]),
    ensures
        plain_ascii(seq!['C', ' '] + lower(k)),
        reply_to_folded(d@, upper(seq!['C', ' '] + lower(k))) == code_line(k, lookup(d@, k)->0),
{
    let es = d@;
    let i = choose|i: int| 0 <= i < es.len() && #[trigger] es[i].0 == k;
    assert(plain_ascii(es[i].0) && upper(es[i].0) == es[i].0);
    lemma_upper_of_lower(k);
    let q = seq!['C', ' '] + lower(k);
    assert(plain_ascii(q)) by {
        assert forall|j: int| 0 <= j < q.len() implies ((#[trigger] q[j]) as u32) < 0x7F by {
            if j >= 2 {
                assert(q[j] == lower(k)[j - 2]);
            }
        }
    }
    assert(upper(q) =~= seq!['C', ' '] + k);
    lemma_words_of_pair('C', k);
    let ws = words(upper(q));
    assert(ws.drop_first() =~= seq![k]);
    reveal_strlit("C");
    assert("C"@ =~= seq!['C']);
    assert(ws[0] == seq!['C']);
    assert(bare_word(seq!['C']) =~= seq!['C']);
    assert(command_of(ws[0]) == Command::ByCode);
    assert(seq![k].drop_last() =~= Seq::<Seq<char>>::empty());
    assert(seq![k].last() == k);
    assert(code_reply(es, Seq::<Seq<char>>::empty()) == Seq::<char>::empty());
    assert(lookup(es, k) is Some);
    assert(code_reply(es, seq![k]) =~= code_line(k, lookup(es, k)->0));
    assert(code_line(k, lookup(es, k)->0).len() > 0);
}

/// A code query none of whose codes is stored in the directory gets the
/// not-found reply.
pub proof fn lemma_unknown_codes_not_found(d: Directory, text: Seq<char>)
    requires
        words(fold(text)).len() > 0,
        command_of(words(fold(text))[0]) == Command::ByCode,
        forall|j: int| 1 <= j < words(fold(text)).len() ==> !has_key(d@, #[trigger] words(fold(text))[j]),
    ensures
        reply(d@, text) == NOT_FOUND@,
{
    let ws = words(fold(text));
    let rest = ws.drop_first();
    assert forall|j: int| 0 <= j < rest.len() implies !has_key(d@, #[trigger] rest[j]) by {
        assert(rest[j] == ws[j + 1]);
    }
    lemma_code_reply_empty(d@, rest);
}

proof fn lemma_search_reply_empty(es: Seq<(Seq<char>, PersonView)>, ts: Seq<Seq<char>>, by_surname: bool)
    requires
        forall|j: int| 0 <= j < ts.len() ==> (#[trigger] ts[j]).len() <= 2,
    ensures
        search_reply(es, ts, by_surname) == Seq::<char>::empty(),
    decreases es.len(),
{
    if es.len() > 0 {
        lemma_search_reply_empty(es.drop_last(), ts, by_surname);
        assert(!matches_any(searched_text(es.last().1, by_surname), ts));
        assert(search_reply(es, ts, by_surname) =~= Seq::<char>::empty());
    }
}

/// A name or surname query whose words are all of one or two characters
/// matches nobody, and gets the not-found reply.
pub proof fn lemma_short_terms_ignored(d: Directory, text: Seq<char>)
    requires
        words(fold(text)).len() > 0,
        command_of(words(fold(text))[0]) == Command::ByName || command_of(words(fold(text))[0])
            == Command::BySurname,
        forall|j: int| 1 <= j < words(fold(text)).len() ==> (#[trigger] words(fold(text))[j]).len() <= 2,
    ensures
        reply(d@, text) == NOT_FOUND@,
{
    let ws = words(fold(text));
    let rest = ws.drop_first();
    assert forall|j: int| 0 <= j < rest.len() implies (#[trigger] rest[j]).len() <= 2 by {
        assert(rest[j] == ws[j + 1]);
    }
    lemma_search_reply_empty(d@, rest, false);
    lemma_search_reply_empty(d@, rest, true);
}

/// Two messages that fold to the same text, such as a word with accents and
/// the same word without them, in any case, get the same reply.
pub proof fn lemma_reply_ignores_accents(d: Directory, q: Seq<char>, u: Seq<char>)
    requires
        fold(q) == fold(u),
    ensures
        reply(d@, q) == reply(d@, u),
{
}

proof fn lemma_hits_not_empty(es: Seq<(Seq<char>, PersonView)>, g: int)
    requires
        exists|i: int| 0 <= i < es.len() && #[trigger] es[i].1.generation == g,
    ensures
        generation_hits(es, g).len() > 0,
    decreases es.len(),
{
    let e = es.last();
    if e.1.generation == g {
        reveal_strlit("\n");
        assert(generation_line(e.0, e.1).len() > 0);
    } else {
        let i = choose|i: int| 0 <= i < es.len() && #[trigger] es[i].1.generation == g;
        assert(es.drop_last()[i].1.generation == g);
        lemma_hits_not_empty(es.drop_last(), g);
    }
}

/// A generation query for a cohort in the accepted range, held by someone in
/// the directory, lists exactly the people of that cohort, in the
/// directory's order. The message is ASCII, so `handle` gives it the reply
/// stated here.
pub proof fn lemma_generation_query(d: Directory, g: int)
    requires
        accepted_generation(g),
        exists|i: int| 0 <= i < d@.len() && #[trigger] d@[i].1.generation == g,
    ensures
        plain_ascii(seq!['G', ' '] + decimal(g)),
        reply_to_folded(d@, upper(seq!['G', ' '] + decimal(g))) == generation_hits(d@, g),
{
    let es = d@;
    let hi = digit_char((g / 10) as nat);
    let lo = digit_char((g % 10) as nat);
    reveal_with_fuel(decimal_digits, 2);
    let w = decimal(g);
    assert(w =~= seq![hi, lo]);
    let q = seq!['G', ' '] + w;
    assert(q =~= seq!['G', ' ', hi, lo]);
    assert(plain_ascii(q));
    assert(upper(q) =~= q);
    lemma_words_of_pair('G', w);
    let ws = words(q);
    reveal_strlit("C");
    reveal_strlit("CLAVE");
    reveal_strlit("N");
    reveal_strlit("NOMBRE");
    reveal_strlit("A");
    reveal_strlit("APELLIDO");
    reveal_strlit("G");
    assert(ws[0] == seq!['G']);
    assert(bare_word(seq!['G']) =~= seq!['G']);
    assert("G"@ =~= seq!['G']);
    assert(command_of(ws[0]) == Command::ByGeneration);
    assert(ws.drop_first() =~= seq![w]);
    assert(all_digits(w));
    assert(w.drop_last() =~= seq![hi]);
    assert(seq![hi].drop_last() =~= Seq::<char>::empty());
    lemma_digit_char((g / 10) as nat);
    lemma_digit_char((g % 10) as nat);
    assert(digits_value(seq![hi]) == digits_value(Seq::<char>::empty()) * 10 + digit_value(hi));
    assert(digits_value(w) == g);
    assert(signed_value(w) == Some(g));
    assert(seq![w].drop_last() =~= Seq::<Seq<char>>::empty());
    assert(seq![w].last() == w);
    assert(generation_reply(es, Seq::<Seq<char>>::empty()) == Seq::<char>::empty());
    assert(generation_reply(es, seq![w]) =~= generation_hits(es, g));
    lemma_hits_not_empty(es, g);
}

} // verus!
