//! Die Ortszeit eines Eintrags und die Rechnung „welcher Tag ist das".

use vstd::prelude::*;

use crate::text::{
    dezimal_anhaengen, ganzzahl, ganzzahl_anhaengen, zweistellig, zweistellig_anhaengen,
};

verus! {

/// Ein Zeitpunkt der Ortszeit, minutengenau.
#[derive(Debug, Clone, Copy, PartialEq, Eq, Structural)]
pub struct Zeitpunkt {
    pub jahr: i64,
    pub monat: i64,
    pub tag: i64,
    pub stunde: u16,
    pub minute: u16,
}

/// Passt in ein `i64`.
pub open spec fn im_i64(x: int) -> bool {
    i64::MIN <= x <= i64::MAX
}

/// Division, die wie Rusts `/` gegen null rundet (für `b > 0`).
pub open spec fn gegen_null(a: int, b: int) -> int {
    if a >= 0 {
        a / b
    } else {
        -((-a) / b)
    }
}

/// Das Jahr, vom März an gezählt: Januar und Februar gehören zum Vorjahr.
pub open spec fn maerzjahr(z: Zeitpunkt) -> int {
    if z.monat <= 2 {
        z.jahr - 1
    } else {
        z.jahr as int
    }
}

/// Der Monat, vom März an gezählt: März ist 0, Februar 11.
pub open spec fn maerzmonat(z: Zeitpunkt) -> int {
    if z.monat > 2 {
        z.monat - 3
    } else {
        z.monat + 9
    }
}

/// Der Tag im vom März an gezählten Jahr.
pub open spec fn tag_des_jahres(z: Zeitpunkt) -> int {
    gegen_null(153 * maerzmonat(z) + 2, 5) + z.tag - 1
}

/// Howard Hinnants `days_from_civil`: die Tage seit dem 1. Januar 1970.
///
/// Die Ära ist ein Block von 400 Jahren (146 097 Tagen), in dem sich der
/// gregorianische Kalender genau wiederholt.
pub open spec fn tage(z: Zeitpunkt) -> int {
    let jahr = maerzjahr(z);
    let aera = jahr / 400;
    let jahr_der_aera = jahr - aera * 400;
    let tag_der_aera = jahr_der_aera * 365 + jahr_der_aera / 4 - jahr_der_aera / 100
        + tag_des_jahres(z);
    aera * 146_097 + tag_der_aera - 719_468
}

impl Zeitpunkt {
    /// Jeder Zwischenwert der Rechnung in `tageszahl` passt in ein `i64`.
    pub open spec fn rechenbar(self) -> bool {
        let jahr = maerzjahr(self);
        let aera = jahr / 400;
        let jahr_der_aera = jahr - aera * 400;
        let m = maerzmonat(self);
        let tag_der_aera = jahr_der_aera * 365 + jahr_der_aera / 4 - jahr_der_aera / 100
            + tag_des_jahres(self);
        &&& im_i64(jahr)
        &&& im_i64(jahr - 399)
        &&& im_i64(153 * m)
        &&& im_i64(153 * m + 2)
        &&& im_i64(gegen_null(153 * m + 2, 5) + self.tag)
        &&& im_i64(tag_des_jahres(self))
        &&& im_i64(tag_der_aera)
        &&& im_i64(aera * 146_097)
        &&& im_i64(aera * 146_097 + tag_der_aera)
        &&& im_i64(tage(self))
    }

    /// Ein Zeitpunkt mit Jahr, Monat und Tag in handlicher Grösse.
    pub open spec fn handlich(self) -> bool {
        &&& -1_000_000_000_000 <= self.jahr <= 1_000_000_000_000
        &&& -1_000_000_000_000 <= self.monat <= 1_000_000_000_000
        &&& -1_000_000_000_000 <= self.tag <= 1_000_000_000_000
    }

    /// Ob Jahr, Monat und Tag in handlicher Grösse sind.
    pub fn ist_handlich(&self) -> (r: bool)
        ensures
            r == self.handlich(),
    {
        -1_000_000_000_000 <= self.jahr && self.jahr <= 1_000_000_000_000
            && -1_000_000_000_000 <= self.monat && self.monat <= 1_000_000_000_000
            && -1_000_000_000_000 <= self.tag && self.tag <= 1_000_000_000_000
    }

    /// Die Uhrzeit als „HH:MM".
    pub fn uhrzeit(&self) -> (r: String)
        ensures
            r@ == uhrzeit_text(*self),
    {
        let mut s = String::new();
        zweistellig_anhaengen(&mut s, self.stunde);
        proof { reveal_strlit(":"); }
        s.append(":");
        zweistellig_anhaengen(&mut s, self.minute);
        assert(s@ =~= uhrzeit_text(*self));
        s
    }

    /// Die Zahl der Tage seit dem 1. Januar 1970.
    ///
    /// Nach Howard Hinnants `days_from_civil` — gültig für jedes Datum des
    /// gregorianischen Kalenders und ohne Tabelle, die jemand pflegen müsste.
    pub fn tageszahl(&self) -> (r: i64)
        requires
            self.rechenbar(),
        ensures
            r == tage(*self),
    {
        let jahr = if self.monat <= 2 { self.jahr - 1 } else { self.jahr };
        let aera = if jahr >= 0 { jahr } else { jahr - 399 } / 400;
        assert(aera == jahr / 400) by {
            if jahr < 0 {
                lemma_abrunden(jahr as int);
            }
        }
        let jahr_der_aera = jahr - aera * 400;
        let monat = if self.monat > 2 { self.monat - 3 } else { self.monat + 9 };
        let tag_des_jahres = (153 * monat + 2) / 5 + self.tag - 1;
        let tag_der_aera = jahr_der_aera * 365 + jahr_der_aera / 4 - jahr_der_aera / 100
            + tag_des_jahres;

        aera * 146_097 + tag_der_aera - 719_468
    }
}

/// Für negatives `j` rundet `(j - 399) / 400` gegen null genau so ab wie
/// die Division nach unten.
proof fn lemma_abrunden(j: int)
    requires
        j < 0,
    ensures
        gegen_null(j - 399, 400) == j / 400,
{
    let q = j / 400;
    let r = j % 400;
    assert(j == q * 400 + r && 0 <= r < 400);
    assert(-(j - 399) == (-q) * 400 + (399 - r));
    assert((-(j - 399)) / 400 == -q) by {
        vstd::arithmetic::div_mod::lemma_fundamental_div_mod_converse(
            -(j - 399),
            400,
            -q,
            399 - r,
        );
    }
}

/// Ein Schaltjahr des gregorianischen Kalenders.
pub open spec fn schaltjahr(j: int) -> bool {
    (j % 4 == 0 && j % 100 != 0) || j % 400 == 0
}

/// Wie viele Tage der Monat `m` im Jahr `j` hat.
pub open spec fn monatslaenge(j: int, m: int) -> int {
    if m == 2 {
        if schaltjahr(j) {
            29
        } else {
            28
        }
    } else if m == 4 || m == 6 || m == 9 || m == 11 {
        30
    } else {
        31
    }
}

impl Zeitpunkt {
    /// Ein Datum, das es im gregorianischen Kalender gibt.
    pub open spec fn datum_gueltig(self) -> bool {
        &&& 1 <= self.monat <= 12
        &&& 1 <= self.tag <= monatslaenge(self.jahr as int, self.monat as int)
    }
}

/// Derselbe Zeitpunkt einen Kalendertag später.
pub open spec fn folgetag(z: Zeitpunkt) -> Zeitpunkt {
    if z.tag < monatslaenge(z.jahr as int, z.monat as int) {
        Zeitpunkt { tag: (z.tag + 1) as i64, ..z }
    } else if z.monat < 12 {
        Zeitpunkt { monat: (z.monat + 1) as i64, tag: 1, ..z }
    } else {
        Zeitpunkt { jahr: (z.jahr + 1) as i64, monat: 1, tag: 1, ..z }
    }
}

/// Innerhalb einer Ära: ein Jahr weiter bringt 365 Tage und einen Schalttag,
/// wo das neue Jahr durch 4, aber nicht durch 100 teilbar ist.
proof fn lemma_jahr_weiter(a: int, r: int)
    requires
        0 <= r < 399,
    ensures
        (r + 1) / 4 - r / 4 - ((r + 1) / 100 - r / 100) == (if schaltjahr(400 * a + r + 1) {
            1int
        } else {
            0int
        }),
{
    let j = 400 * a + r + 1;
    assert(j % 4 == (r + 1) % 4) by {
        vstd::arithmetic::div_mod::lemma_mod_multiples_vanish(100 * a, r + 1, 4);
    }
    assert(j % 100 == (r + 1) % 100) by {
        vstd::arithmetic::div_mod::lemma_mod_multiples_vanish(4 * a, r + 1, 100);
    }
    assert(j % 400 == (r + 1) % 400) by {
        vstd::arithmetic::div_mod::lemma_mod_multiples_vanish(a, r + 1, 400);
    }
}

/// Der Tag nach einem gültigen Datum hat die nächste Tageszahl: `tage`
/// zählt die Kalendertage lückenlos, über Monats-, Jahres- und
/// Schaltjahresgrenzen hinweg.
pub proof fn tage_des_folgetags(z: Zeitpunkt)
    requires
        z.datum_gueltig(),
        z.jahr < i64::MAX,
    ensures
        folgetag(z).datum_gueltig(),
        tage(folgetag(z)) == tage(z) + 1,
{
    let n = folgetag(z);
    let y = maerzjahr(z);
    let a = y / 400;
    let r = y - a * 400;
    assert(0 <= r < 400);
    if z.tag < monatslaenge(z.jahr as int, z.monat as int) {
        assert(maerzjahr(n) == y);
        assert(tag_des_jahres(n) == tag_des_jahres(z) + 1);
    } else if z.monat == 2 {
        assert(maerzjahr(n) == y + 1);
        assert(tag_des_jahres(z) == 336 + z.tag);
        assert(tag_des_jahres(n) == 0);
        assert(z.jahr == 400 * a + r + 1);
        if r < 399 {
            assert((y + 1) / 400 == a) by {
                vstd::arithmetic::div_mod::lemma_fundamental_div_mod_converse(y + 1, 400, a, r + 1);
            }
            lemma_jahr_weiter(a, r);
        } else {
            assert((y + 1) / 400 == a + 1) by {
                vstd::arithmetic::div_mod::lemma_fundamental_div_mod_converse(y + 1, 400, a + 1, 0);
            }
            assert(z.jahr % 400 == 0) by {
                vstd::arithmetic::div_mod::lemma_mod_multiples_vanish(a + 1, 0, 400);
            }
        }
    } else if z.monat == 12 {
        assert(maerzjahr(n) == y);
        assert(tag_des_jahres(z) == 305);
        assert(tag_des_jahres(n) == 306);
    } else {
        assert(maerzjahr(n) == y);
        assert(tag_des_jahres(n) == tag_des_jahres(z) + 1);
    }
}

/// Wann ein Eintrag entstanden ist, sobald „vor n Minuten" nichts mehr sagt:
/// heute die Uhrzeit, gestern mit dem Wort davor, sonst mit dem Datum.
///
/// Nur ein Abstand von genau einem Tag ist „gestern"; ein negativer Abstand,
/// etwa nach einer zurückgestellten Uhr, zeigt das Datum.
pub open spec fn beschriftung_text(dann: Zeitpunkt, jetzt: Zeitpunkt) -> Seq<char> {
    let abstand = tage(jetzt) - tage(dann);
    if abstand == 0 {
        uhrzeit_text(dann)
    } else if abstand == 1 {
        "gestern, "@ + uhrzeit_text(dann)
    } else {
        ganzzahl(dann.tag as int) + "."@ + ganzzahl(dann.monat as int) + "., "@ + uhrzeit_text(dann)
    }
}

/// Wann ein Eintrag entstanden ist, sobald „vor n Minuten" nichts mehr sagt.
pub fn beschriftung(dann: Zeitpunkt, jetzt: Zeitpunkt) -> (r: String)
    requires
        dann.rechenbar(),
        jetzt.rechenbar(),
        im_i64(tage(jetzt) - tage(dann)),
    ensures
        r@ == beschriftung_text(dann, jetzt),
{
    let abstand = jetzt.tageszahl() - dann.tageszahl();
    if abstand == 0 {
        dann.uhrzeit()
    } else if abstand == 1 {
        let mut s = String::new();
        s.append("gestern, ");
        s.append(dann.uhrzeit().as_str());
        assert(s@ =~= beschriftung_text(dann, jetzt));
        s
    } else {
        let mut s = String::new();
        ganzzahl_anhaengen(&mut s, dann.tag);
        s.append(".");
        ganzzahl_anhaengen(&mut s, dann.monat);
        s.append("., ");
        s.append(dann.uhrzeit().as_str());
        assert(s@ =~= beschriftung_text(dann, jetzt));
        s
    }
}

/// Handliche Zeitpunkte lassen sich rechnen, und der Abstand zweier
/// handlicher Tageszahlen passt in ein `i64`.
pub proof fn handlich_ist_rechenbar(dann: Zeitpunkt, jetzt: Zeitpunkt)
    requires
        dann.handlich(),
        jetzt.handlich(),
    ensures
        dann.rechenbar(),
        jetzt.rechenbar(),
        im_i64(tage(jetzt) - tage(dann)),
        -1_000_000_000_000_000 <= tage(dann) <= 1_000_000_000_000_000,
{
    lemma_handlich_begrenzt(dann);
    lemma_handlich_begrenzt(jetzt);
}

proof fn lemma_handlich_begrenzt(z: Zeitpunkt)
    requires
        z.handlich(),
    ensures
        z.rechenbar(),
        -1_000_000_000_000_000 <= tage(z) <= 1_000_000_000_000_000,
{
    let jahr = maerzjahr(z);
    let aera = jahr / 400;
    assert(-3_000_000_000 <= aera <= 3_000_000_000);
    let jahr_der_aera = jahr - aera * 400;
    assert(0 <= jahr_der_aera < 400);
    let m = maerzmonat(z);
    assert(-100_000_000_000_000 <= gegen_null(153 * m + 2, 5) <= 100_000_000_000_000);
}

/// „HH:MM" eines Zeitpunkts.
pub open spec fn uhrzeit_text(z: Zeitpunkt) -> Seq<char> {
    zweistellig(z.stunde as nat) + seq![':'] + zweistellig(z.minute as nat)
}

/// Der 1. Januar 1970 ist Tag null; mit `tage_des_folgetags` zählt `tage`
/// damit für jedes gültige Datum die Tage seit diesem Tag.
pub proof fn tage_der_epoche(z: Zeitpunkt)
    requires
        z.jahr == 1970,
        z.monat == 1,
        z.tag == 1,
    ensures
        tage(z) == 0,
{
}

/// Die Tageszahl hängt nur am Datum, nicht an der Uhrzeit.
proof fn lemma_tage_nur_datum(a: Zeitpunkt, b: Zeitpunkt)
    requires
        a.jahr == b.jahr,
        a.monat == b.monat,
        a.tag == b.tag,
    ensures
        tage(a) == tage(b),
{
}

/// Ein Eintrag vom Vortag heisst „gestern" mit seiner Uhrzeit, über Monats-
/// und Jahresgrenzen hinweg, gleich zu welcher Uhrzeit man hinsieht.
pub proof fn gestern_heisst_gestern(dann: Zeitpunkt, jetzt: Zeitpunkt)
    requires
        dann.datum_gueltig(),
        dann.jahr < i64::MAX,
        jetzt.jahr == folgetag(dann).jahr,
        jetzt.monat == folgetag(dann).monat,
        jetzt.tag == folgetag(dann).tag,
    ensures
        beschriftung_text(dann, jetzt) == "gestern, "@ + uhrzeit_text(dann),
{
    tage_des_folgetags(dann);
    lemma_tage_nur_datum(jetzt, folgetag(dann));
}

/// Ein Eintrag vom selben Tag zeigt nur seine Uhrzeit.
pub proof fn heute_heisst_uhrzeit(dann: Zeitpunkt, jetzt: Zeitpunkt)
    requires
        jetzt.jahr == dann.jahr,
        jetzt.monat == dann.monat,
        jetzt.tag == dann.tag,
    ensures
        beschriftung_text(dann, jetzt) == uhrzeit_text(dann),
{
    lemma_tage_nur_datum(jetzt, dann);
}

/// Ein Eintrag, der weder von heute noch von gestern ist, auch einer aus
/// der Zukunft nach einer zurückgestellten Uhr, zeigt Tag und Monat vor der
/// Uhrzeit.
pub proof fn sonst_heisst_es_datum(dann: Zeitpunkt, jetzt: Zeitpunkt)
    requires
        tage(jetzt) != tage(dann),
        tage(jetzt) != tage(dann) + 1,
    ensures
        beschriftung_text(dann, jetzt) == ganzzahl(dann.tag as int) + seq!['.'] + ganzzahl(
            dann.monat as int,
        ) + seq!['.', ',', ' '] + uhrzeit_text(dann),
{
    reveal_strlit(".");
    reveal_strlit("., ");
    assert("."@ =~= seq!['.']);
    assert("., "@ =~= seq!['.', ',', ' ']);
}

} // verus!
