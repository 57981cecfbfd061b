//! Text: Zahlen schreiben und lesen, Leerraum erkennen, Wörter zählen.
//!
//! Alles hier arbeitet auf der Zeichenfolge, die ein `&str` oder ein
//! `String` trägt (`s@`), und sagt, was es daraus macht.

use vstd::prelude::*;

verus! {

/// Die Ziffer `d` (0 bis 9) als Zeichen.
pub open spec fn ziffer(d: nat) -> char {
    if d == 0 {
        '0'
    } else if d == 1 {
        '1'
    } else if d == 2 {
        '2'
    } else if d == 3 {
        '3'
    } else if d == 4 {
        '4'
    } else if d == 5 {
        '5'
    } else if d == 6 {
        '6'
    } else if d == 7 {
        '7'
    } else if d == 8 {
        '8'
    } else {
        '9'
    }
}

/// Die Dezimalschreibweise einer natürlichen Zahl, ohne führende Nullen.
pub open spec fn dezimal(n: nat) -> Seq<char>
    decreases n,
{
    if n < 10 {
        seq![ziffer(n)]
    } else {
        dezimal(n / 10).push(ziffer(n % 10))
    }
}

/// Eine ganze Zahl, wie `{}` sie schreibt: ein Minus davor, wenn sie negativ ist.
pub open spec fn ganzzahl(i: int) -> Seq<char> {
    if i < 0 {
        seq!['-'] + dezimal((-i) as nat)
    } else {
        dezimal(i as nat)
    }
}

/// Zweistellig mit führender Null, wie `{:02}` schreibt.
pub open spec fn zweistellig(n: nat) -> Seq<char> {
    if n < 10 {
        seq!['0'] + dezimal(n)
    } else {
        dezimal(n)
    }
}

fn ziffer_text(d: u64) -> (r: &'static str)
    requires
        d < 10,
    ensures
        r@ == seq![ziffer(d as nat)],
{
    if d == 0 {
        proof { reveal_strlit("0"); }
        "0"
    } else if d == 1 {
        proof { reveal_strlit("1"); }
        "1"
    } else if d == 2 {
        proof { reveal_strlit("2"); }
        "2"
    } else if d == 3 {
        proof { reveal_strlit("3"); }
        "3"
    } else if d == 4 {
        proof { reveal_strlit("4"); }
        "4"
    } else if d == 5 {
        proof { reveal_strlit("5"); }
        "5"
    } else if d == 6 {
        proof { reveal_strlit("6"); }
        "6"
    } else if d == 7 {
        proof { reveal_strlit("7"); }
        "7"
    } else if d == 8 {
        proof { reveal_strlit("8"); }
        "8"
    } else {
        proof { reveal_strlit("9"); }
        "9"
    }
}

/// Hängt die Dezimalschreibweise von `n` an `s` an.
pub fn dezimal_anhaengen(s: &mut String, n: u64)
    ensures
        final(s)@ == old(s)@ + dezimal(n as nat),
    decreases n,
{
    if n >= 10 {
        dezimal_anhaengen(s, n / 10);
    }
    s.append(ziffer_text(n % 10));
    assert(old(s)@ + dezimal(n as nat) =~= (if n >= 10 {
        old(s)@ + dezimal((n / 10) as nat)
    } else {
        old(s)@
    }) + seq![ziffer((n % 10) as nat)]);
}

/// Eine ganze Zahl anhängen, negative mit Minus davor.
pub fn ganzzahl_anhaengen(s: &mut String, i: i64)
    ensures
        final(s)@ == old(s)@ + ganzzahl(i as int),
{
    if i < 0 {
        proof { reveal_strlit("-"); }
        s.append("-");
        let betrag: u64 = (0i128 - (i as i128)) as u64;
        dezimal_anhaengen(s, betrag);
        assert(final(s)@ =~= old(s)@ + ganzzahl(i as int)) by {
            assert(betrag as int == -(i as int));
        }
    } else {
        dezimal_anhaengen(s, i as u64);
    }
}

/// Zweistellig mit führender Null anhängen.
pub fn zweistellig_anhaengen(s: &mut String, n: u16)
    ensures
        final(s)@ == old(s)@ + zweistellig(n as nat),
{
    if n < 10 {
        proof { reveal_strlit("0"); }
        s.append("0");
    }
    dezimal_anhaengen(s, n as u64);
    assert(final(s)@ =~= old(s)@ + zweistellig(n as nat));
}

/// Die Dezimalschreibweise von `n` als neuer Text.
pub fn dezimal_text(n: u64) -> (r: String)
    ensures
        r@ == dezimal(n as nat),
{
    let mut s = String::new();
    dezimal_anhaengen(&mut s, n);
    assert(s@ =~= dezimal(n as nat));
    s
}

/// Die Zeichen eines Textes, einzeln greifbar.
pub fn zeichen(s: &str) -> (r: Vec<char>)
    ensures
        r@ == s@,
{
    let mut r: Vec<char> = Vec::new();
    for c in it: s.chars()
        invariant
            it.seq() == s@,
            r@ == s@.take(it.index() as int),
    {
        r.push(c);
        assert(r@ =~= s@.take(it.index() as int + 1));
    }
    assert(r@ =~= s@);
    r
}

/// Ob zwei Texte dieselben Zeichen tragen.
pub fn gleich(a: &str, b: &str) -> (r: bool)
    ensures
        r == (a@ == b@),
{
    let x = zeichen(a);
    let y = zeichen(b);
    if x.len() != y.len() {
        return false;
    }
    let mut i: usize = 0;
    while i < x.len()
        invariant
            x@ == a@,
            y@ == b@,
            x.len() == y.len(),
            i <= x.len(),
            forall|k: int| 0 <= k < i ==> x@[k] == y@[k],
        decreases x.len() - i,
    {
        if x[i] != y[i] {
            return false;
        }
        i = i + 1;
    }
    assert(x@ =~= y@);
    true
}

/// Leerraum im Sinn von Unicodes `White_Space`, wie `char::is_whitespace`
/// ihn erkennt.
pub open spec fn leerraum(c: char) -> bool {
    let u = c as u32;
    ||| 0x09 <= u <= 0x0d
    ||| u == 0x20
    ||| u == 0x85
    ||| u == 0xa0
    ||| u == 0x1680
    ||| 0x2000 <= u <= 0x200a
    ||| u == 0x2028
    ||| u == 0x2029
    ||| u == 0x202f
    ||| u == 0x205f
    ||| u == 0x3000
}

/// Ob ein Zeichen Leerraum ist.
pub fn ist_leerraum(c: char) -> (r: bool)
    ensures
        r == leerraum(c),
{
    let u = c as u32;
    (0x09 <= u && u <= 0x0d) || u == 0x20 || u == 0x85 || u == 0xa0 || u == 0x1680 || (0x2000
        <= u && u <= 0x200a) || u == 0x2028 || u == 0x2029 || u == 0x202f || u == 0x205f || u
        == 0x3000
}

/// Ein Text, der nach `trim` leer wäre: nichts als Leerraum.
pub open spec fn nur_leerraum(s: Seq<char>) -> bool {
    forall|i: int| 0 <= i < s.len() ==> leerraum(#[trigger] s[i])
}

/// Ob ein Text nichts als Leerraum trägt.
pub fn ist_nur_leerraum(s: &str) -> (r: bool)
    ensures
        r == nur_leerraum(s@),
{
    let z = zeichen(s);
    let mut i: usize = 0;
    while i < z.len()
        invariant
            z@ == s@,
            i <= z.len(),
            forall|k: int| 0 <= k < i ==> leerraum(#[trigger] z@[k]),
        decreases z.len() - i,
    {
        if !ist_leerraum(z[i]) {
            return false;
        }
        i = i + 1;
    }
    true
}

/// Wie viele Wörter `split_whitespace` in einem Text findet: die Stellen, an
/// denen nach Leerraum oder am Anfang ein anderes Zeichen steht.
pub open spec fn wortzahl(s: Seq<char>) -> nat
    decreases s.len(),
{
    if s.len() == 0 {
        0
    } else {
        let beginnt = !leerraum(s.last()) && (s.len() == 1 || leerraum(s[s.len() - 2]));
        wortzahl(s.drop_last()) + if beginnt {
            1nat
        } else {
            0nat
        }
    }
}

proof fn lemma_wortzahl_begrenzt(s: Seq<char>)
    ensures
        wortzahl(s) <= s.len(),
    decreases s.len(),
{
    if s.len() > 0 {
        lemma_wortzahl_begrenzt(s.drop_last());
    }
}

/// Zählt die Wörter eines Textes.
pub fn woerter_zaehlen(s: &str) -> (r: u64)
    ensures
        r == wortzahl(s@),
{
    let z = zeichen(s);
    let mut n: u64 = 0;
    let mut i: usize = 0;
    let mut davor_leer = true;
    while i < z.len()
        invariant
            z@ == s@,
            i <= z.len(),
            n == wortzahl(z@.take(i as int)),
            davor_leer == (i == 0 || leerraum(z@[i - 1])),
        decreases z.len() - i,
    {
        let ghost vorher = z@.take(i as int);
        let leer = ist_leerraum(z[i]);
        assert(z@.take(i + 1).drop_last() =~= vorher);
        proof {
            lemma_wortzahl_begrenzt(vorher);
        }
        if !leer && davor_leer {
            n = n + 1;
        }
        davor_leer = leer;
        i = i + 1;
    }
    assert(z@.take(z.len() as int) =~= z@);
    n
}

/// Der Wert einer Folge von Dezimalziffern.
pub open spec fn ziffernwert(s: Seq<char>) -> nat
    decreases s.len(),
{
    if s.len() == 0 {
        0
    } else {
        ziffernwert(s.drop_last()) * 10 + ((s.last() as u32) - ('0' as u32)) as nat
    }
}

/// Lauter Dezimalziffern, und wenigstens eine.
pub open spec fn ziffernfolge(s: Seq<char>) -> bool {
    &&& s.len() > 0
    &&& forall|i: int| 0 <= i < s.len() ==> '0' <= #[trigger] s[i] <= '9'
}

/// Was `str::parse` für eine vorzeichenlose Zahl liest: ein `+` darf vorn
/// stehen, danach nur Ziffern, wenigstens eine, und der Wert darf
/// `hoechstens` nicht übersteigen.
pub open spec fn gelesene_zahl(s: Seq<char>, hoechstens: nat) -> Option<nat> {
    let ziffern = if s.len() > 0 && s[0] == '+' {
        s.drop_first()
    } else {
        s
    };
    if ziffernfolge(ziffern) && ziffernwert(ziffern) <= hoechstens {
        Some(ziffernwert(ziffern))
    } else {
        None
    }
}

/// Liest eine vorzeichenlose Dezimalzahl bis `hoechstens`, wie `str::parse`
/// es für `u64` und `usize` tut.
pub fn zahl_lesen(s: &str, hoechstens: u64) -> (r: Option<u64>)
    ensures
        r matches Some(n) ==> gelesene_zahl(s@, hoechstens as nat) == Some(n as nat),
        r is None ==> gelesene_zahl(s@, hoechstens as nat) is None,
{
    let z = zeichen(s);
    let start: usize = if z.len() > 0 && z[0] == '+' { 1 } else { 0 };
    let ghost ziffern = z@.skip(start as int);
    assert(ziffern =~= if s@.len() > 0 && s@[0] == '+' {
        s@.drop_first()
    } else {
        s@
    });
    if start >= z.len() {
        return None;
    }
    let mut wert: u64 = 0;
    let mut zu_gross = false;
    let mut i: usize = start;
    while i < z.len()
        invariant
            z@ == s@,
            ziffern == z@.skip(start as int),
            ziffern == (if s@.len() > 0 && s@[0] == '+' {
                s@.drop_first()
            } else {
                s@
            }),
            start <= i <= z.len(),
            forall|k: int| start <= k < i ==> '0' <= #[trigger] z@[k] <= '9',
            !zu_gross ==> wert == ziffernwert(ziffern.take(i - start)),
            !zu_gross ==> wert <= hoechstens,
            zu_gross ==> ziffernwert(ziffern.take(i - start)) > hoechstens,
        decreases z.len() - i,
    {
        let c = z[i];
        if c < '0' || c > '9' {
            assert(ziffern[i - start] == c);
            assert(!ziffernfolge(ziffern));
            return None;
        }
        let d = (c as u32 - '0' as u32) as u64;
        let ghost vorher = ziffern.take(i - start);
        assert(ziffern.take(i + 1 - start).drop_last() =~= vorher);
        if !zu_gross {
            if d > hoechstens || wert > (hoechstens - d) / 10 {
                assert(wert * 10 + d > hoechstens) by (nonlinear_arith)
                    requires
                        d > hoechstens || wert > (hoechstens - d) / 10,
                        wert >= 0,
                ;
                zu_gross = true;
            } else {
                assert(wert * 10 + d <= hoechstens) by (nonlinear_arith)
                    requires
                        d <= hoechstens,
                        wert <= (hoechstens - d) / 10,
                ;
                wert = wert * 10 + d;
            }
        } else {
            assert(ziffernwert(vorher) * 10 + d > hoechstens) by (nonlinear_arith)
                requires
                    ziffernwert(vorher) > hoechstens,
                    d >= 0,
            ;
        }
        i = i + 1;
    }
    assert(ziffern.take(z.len() - start) =~= ziffern);
    assert(ziffernfolge(ziffern)) by {
        assert forall|k: int| 0 <= k < ziffern.len() implies '0' <= #[trigger] ziffern[k] <= '9' by {
            assert(ziffern[k] == z@[k + start]);
        }
    }
    if zu_gross {
        None
    } else {
        Some(wert)
    }
}

/// Die Zeichenfolgen einer Folge von Texten.
pub open spec fn sichten(v: Seq<String>) -> Seq<Seq<char>> {
    v.map_values(|t: String| t@)
}

/// Teile mit einem Trenner dazwischen aneinandergehängt.
pub open spec fn verbunden(teile: Seq<Seq<char>>, trenner: Seq<char>) -> Seq<char>
    decreases teile.len(),
{
    if teile.len() == 0 {
        seq![]
    } else if teile.len() == 1 {
        teile[0]
    } else {
        verbunden(teile.drop_last(), trenner) + trenner + teile.last()
    }
}

/// Hängt die Teile mit dem Trenner dazwischen aneinander, wie `join`.
pub fn verbinden(teile: &Vec<String>, trenner: &str) -> (r: String)
    ensures
        r@ == verbunden(sichten(teile@), trenner@),
{
    let ghost teil_sichten = sichten(teile@);
    let mut r = String::new();
    let mut i: usize = 0;
    while i < teile.len()
        invariant
            teil_sichten == sichten(teile@),
            i <= teile.len(),
            r@ == verbunden(teil_sichten.take(i as int), trenner@),
        decreases teile.len() - i,
    {
        assert(teil_sichten.take(i + 1).drop_last() =~= teil_sichten.take(i as int));
        if i > 0 {
            r.append(trenner);
        }
        r.append(teile[i].as_str());
        assert(r@ =~= verbunden(teil_sichten.take(i + 1), trenner@));
        i = i + 1;
    }
    assert(teil_sichten.take(teile.len() as int) =~= teil_sichten);
    r
}

/// Was `str::to_uppercase` aus einem Text macht: die Grossschreibung nach
/// Unicode, bei der ein Zeichen auch zu mehreren werden kann („ß" zu „SS").
pub uninterp spec fn grossgeschrieben(s: Seq<char>) -> Seq<char>;

/// Ruft `str::to_uppercase` auf. Der Vertrag sagt nur, dass das Ergebnis die
/// Grossschreibung genau dieses Textes ist, und sonst nichts über Unicodes
/// Tabellen.
#[verifier::external_body]
pub(crate) fn in_grossbuchstaben(s: &str) -> (r: String)
    ensures
        r@ == grossgeschrieben(s@),
{
    s.to_uppercase()
}

/// Zwei Texte aneinandergehängt haben so viele Wörter wie beide zusammen,
/// weniger eines, wenn an der Fuge ein Wort ohne Leerraum weiterläuft.
proof fn lemma_wortzahl_verkettet(x: Seq<char>, y: Seq<char>)
    ensures
        wortzahl(x + y) + (if x.len() > 0 && y.len() > 0 && !leerraum(x.last()) && !leerraum(y[0]) {
            1int
        } else {
            0int
        }) == wortzahl(x) + wortzahl(y),
    decreases y.len(),
{
    if y.len() == 0 {
        assert(x + y =~= x);
    } else {
        let z = y.drop_last();
        lemma_wortzahl_verkettet(x, z);
        assert((x + y).drop_last() =~= x + z);
        assert((x + y).last() == y.last());
        if z.len() > 0 {
            assert((x + y)[(x + y).len() - 2] == z.last());
            assert(y[y.len() - 2] == z.last());
            assert(z[0] == y[0]);
        } else {
            assert(x + z =~= x);
            assert(z =~= Seq::<char>::empty());
            if x.len() > 0 {
                assert((x + y)[(x + y).len() - 2] == x.last());
            }
        }
    }
}

/// Leerraum trennt Wörter, gleich welcher: Ein Leerraumzeichen zwischen zwei
/// Texten lässt ihre Wörter getrennt zählen.
pub proof fn leerraum_trennt_woerter(a: Seq<char>, c: char, b: Seq<char>)
    requires
        leerraum(c),
    ensures
        wortzahl(a + seq![c] + b) == wortzahl(a) + wortzahl(b),
{
    lemma_wortzahl_verkettet(a, seq![c]);
    lemma_wortzahl_verkettet(a + seq![c], b);
    assert(seq![c].drop_last() =~= Seq::<char>::empty());
    assert(wortzahl(Seq::<char>::empty()) == 0);
    assert(seq![c].last() == c);
    assert(wortzahl(seq![c]) == 0);
    assert((a + seq![c]).last() == c);
}

/// Auch ein Zeilenumbruch trennt Wörter, wie ein Leerzeichen, ein Tabulator
/// oder ein geschütztes Leerzeichen.
pub proof fn zeilenumbruch_trennt_woerter(a: Seq<char>, b: Seq<char>)
    ensures
        wortzahl(a + seq!['\n'] + b) == wortzahl(a) + wortzahl(b),
        wortzahl(a + seq![' '] + b) == wortzahl(a) + wortzahl(b),
        wortzahl(a + seq!['\t'] + b) == wortzahl(a) + wortzahl(b),
        wortzahl(a + seq!['\u{a0}'] + b) == wortzahl(a) + wortzahl(b),
{
    leerraum_trennt_woerter(a, '\n', b);
    leerraum_trennt_woerter(a, ' ', b);
    leerraum_trennt_woerter(a, '\t', b);
    leerraum_trennt_woerter(a, '\u{a0}', b);
}

/// Ein Text ohne jeden Leerraum ist genau ein Wort, ein Text aus nichts
/// als Leerraum keines.
pub proof fn ein_wort_ohne_leerraum(s: Seq<char>)
    ensures
        s.len() > 0 && (forall|i: int| 0 <= i < s.len() ==> !leerraum(#[trigger] s[i]))
            ==> wortzahl(s) == 1,
        nur_leerraum(s) ==> wortzahl(s) == 0,
    decreases s.len(),
{
    if s.len() > 0 {
        ein_wort_ohne_leerraum(s.drop_last());
        if forall|i: int| 0 <= i < s.len() ==> !leerraum(#[trigger] s[i]) {
            assert(!leerraum(s[s.len() - 1]));
            if s.len() > 1 {
                assert(!leerraum(s[s.len() - 2]));
                assert forall|i: int| 0 <= i < s.drop_last().len() implies !leerraum(
                    #[trigger] s.drop_last()[i],
                ) by {
                    assert(!leerraum(s[i]));
                }
            }
        }
        if nur_leerraum(s) {
            assert(leerraum(s[s.len() - 1]));
            assert forall|i: int| 0 <= i < s.drop_last().len() implies leerraum(
                #[trigger] s.drop_last()[i],
            ) by {
                assert(leerraum(s[i]));
            }
        }
    }
}

proof fn lemma_dezimal_ziffern(n: nat)
    ensures
        ziffernfolge(dezimal(n)),
        ziffernwert(dezimal(n)) == n,
    decreases n,
{
    let d = n % 10;
    assert(('0' as u32) == 48 && ('1' as u32) == 49 && ('2' as u32) == 50 && ('3' as u32) == 51
        && ('4' as u32) == 52 && ('5' as u32) == 53 && ('6' as u32) == 54 && ('7' as u32) == 55
        && ('8' as u32) == 56 && ('9' as u32) == 57);
    assert((ziffer(d) as u32) - ('0' as u32) == d);
    if n < 10 {
        assert(dezimal(n).drop_last() =~= Seq::<char>::empty());
        assert(ziffernwert(Seq::<char>::empty()) == 0);
    } else {
        lemma_dezimal_ziffern(n / 10);
        let v = dezimal(n / 10);
        assert(dezimal(n).drop_last() =~= v);
        assert forall|i: int| 0 <= i < dezimal(n).len() implies '0' <= #[trigger] dezimal(n)[i]
            <= '9' by {
            if i < v.len() {
                assert(dezimal(n)[i] == v[i]);
            }
        }
    }
}

/// Was als Dezimalzahl geschrieben wird, liest sich als dieselbe Zahl
/// zurück, mit und ohne `+` davor, solange sie `hoechstens` nicht
/// übersteigt; eine grössere liest sich gar nicht. Ein Minus davor macht sie
/// unlesbar.
pub proof fn geschriebene_zahl_liest_sich_zurueck(n: nat, hoechstens: nat)
    ensures
        gelesene_zahl(dezimal(n), hoechstens) == if n <= hoechstens {
            Some(n)
        } else {
            None::<nat>
        },
        gelesene_zahl(seq!['+'] + dezimal(n), hoechstens) == if n <= hoechstens {
            Some(n)
        } else {
            None::<nat>
        },
        gelesene_zahl(seq!['-'] + dezimal(n), hoechstens) is None,
        gelesene_zahl(Seq::<char>::empty(), hoechstens) is None,
{
    lemma_dezimal_ziffern(n);
    let d = dezimal(n);
    assert(d[0] != '+');
    assert((seq!['+'] + d).drop_first() =~= d);
    assert((seq!['-'] + d)[0] == '-');
}

} // verus!
