use verlauf::uhr::{beschriftung, Zeitpunkt};

fn zeitpunkt(jahr: i64, monat: i64, tag: i64, stunde: u16, minute: u16) -> Zeitpunkt {
    Zeitpunkt { jahr, monat, tag, stunde, minute }
}

#[test]
fn die_tageszahl_trifft_bekannte_daten() {
    assert_eq!(zeitpunkt(1970, 1, 1, 0, 0).tageszahl(), 0);
    assert_eq!(zeitpunkt(1969, 12, 31, 0, 0).tageszahl(), -1);
    assert_eq!(zeitpunkt(2000, 3, 1, 0, 0).tageszahl(), 11_017);
    assert_eq!(zeitpunkt(2026, 9, 7, 0, 0).tageszahl(), 20_703);
}

#[test]
fn aufeinanderfolgende_tage_liegen_einen_auseinander() {
    // Über Monats-, Jahres- und Schaltjahresgrenze hinweg.
    let paare = [
        ((2026, 1, 31), (2026, 2, 1)),
        ((2025, 12, 31), (2026, 1, 1)),
        ((2024, 2, 28), (2024, 2, 29)),
        ((2024, 2, 29), (2024, 3, 1)),
        ((2100, 2, 28), (2100, 3, 1)),
    ];

    for ((j1, m1, t1), (j2, m2, t2)) in paare {
        let davor = zeitpunkt(j1, m1, t1, 0, 0).tageszahl();
        let danach = zeitpunkt(j2, m2, t2, 0, 0).tageszahl();
        assert_eq!(danach - davor, 1, "{j1}-{m1}-{t1} → {j2}-{m2}-{t2}");
    }
}

#[test]
fn heute_ist_die_uhrzeit_gestern_bekommt_ein_wort() {
    let heute = zeitpunkt(2026, 9, 7, 9, 5);
    assert_eq!(beschriftung(zeitpunkt(2026, 9, 7, 14, 32), heute), "14:32");
    assert_eq!(beschriftung(zeitpunkt(2026, 9, 6, 8, 7), heute), "gestern, 08:07");
    assert_eq!(beschriftung(zeitpunkt(2026, 9, 3, 22, 0), heute), "3.9., 22:00");
}

#[test]
fn eine_zurueckgestellte_uhr_zeigt_das_datum() {
    // Sommerzeit oder eine Zeitabgleichung darf keinen negativen Abstand
    // in „gestern" verwandeln.
    let heute = zeitpunkt(2026, 9, 7, 2, 30);
    assert_eq!(beschriftung(zeitpunkt(2026, 9, 8, 1, 0), heute), "8.9., 01:00");
}

#[test]
fn die_epoche_ist_tag_null_und_der_vortag_minus_eins() {
    assert_eq!(zeitpunkt(1970, 1, 1, 12, 0).tageszahl(), 0);
    assert_eq!(zeitpunkt(1970, 1, 2, 0, 0).tageszahl(), 1);
    assert_eq!(zeitpunkt(1600, 3, 1, 0, 0).tageszahl(), -135_080);
    assert_eq!(zeitpunkt(-1, 12, 31, 0, 0).tageszahl(), -719_529);
    assert_eq!(zeitpunkt(0, 1, 1, 0, 0).tageszahl(), -719_528);
}

#[test]
fn jahreswechsel_und_vierhundertjahresgrenze_liegen_einen_tag_auseinander() {
    let paare = [
        ((1999, 12, 31), (2000, 1, 1)),
        ((2000, 2, 28), (2000, 2, 29)),
        ((2000, 2, 29), (2000, 3, 1)),
        ((1900, 2, 28), (1900, 3, 1)),
        ((-1, 2, 28), (-1, 3, 1)),
        ((0, 2, 29), (0, 3, 1)),
        ((2026, 4, 30), (2026, 5, 1)),
    ];
    for ((j1, m1, t1), (j2, m2, t2)) in paare {
        let davor = zeitpunkt(j1, m1, t1, 0, 0).tageszahl();
        let danach = zeitpunkt(j2, m2, t2, 0, 0).tageszahl();
        assert_eq!(danach - davor, 1, "{j1}-{m1}-{t1}");
    }
}

#[test]
fn die_uhrzeit_hat_immer_zwei_stellen() {
    assert_eq!(zeitpunkt(2026, 1, 1, 0, 0).uhrzeit(), "00:00");
    assert_eq!(zeitpunkt(2026, 1, 1, 9, 5).uhrzeit(), "09:05");
    assert_eq!(zeitpunkt(2026, 1, 1, 23, 59).uhrzeit(), "23:59");
    assert_eq!(zeitpunkt(2026, 1, 1, 123, 7).uhrzeit(), "123:07");
}

#[test]
fn das_datum_steht_ohne_fuehrende_null_auch_ueber_jahre() {
    let heute = zeitpunkt(2026, 1, 2, 8, 0);
    assert_eq!(beschriftung(zeitpunkt(2025, 12, 31, 23, 59), heute), "31.12., 23:59");
    assert_eq!(beschriftung(zeitpunkt(2026, 1, 1, 23, 59), heute), "gestern, 23:59");
    assert_eq!(beschriftung(zeitpunkt(2026, -3, 1, 7, 0), heute), "1.-3., 07:00");
}

#[test]
fn handlich_ist_was_die_ortszeit_liefert() {
    assert!(zeitpunkt(2026, 9, 7, 18, 0).ist_handlich());
    assert!(!zeitpunkt(i64::MAX, 1, 1, 0, 0).ist_handlich());
}
