use forkstify::discography::{clean_title, normalize};

#[test]
fn le_titre_ecrit_dans_la_fiche_reste_lisible() {
    assert_eq!(clean_title("Metal Heart - 2015 Remaster"), "Metal Heart");
    assert_eq!(clean_title("Colors and the Kids (Live)"), "Colors and the Kids");
    assert_eq!(clean_title("(I Can't Get No) Satisfaction"), "(I Can't Get No) Satisfaction");
    assert_eq!(clean_title("Cross Bones Style"), "Cross Bones Style");
}

#[test]
fn les_variantes_d_un_meme_titre_se_confondent() {
    let a = normalize("A Forest");
    assert_eq!(a, normalize("A Forest - 2005 Remaster"));
    assert_eq!(a, normalize("A Forest (Remastered)"));
    assert_eq!(a, normalize("a  forest!"));
    assert_ne!(a, normalize("A Forest Fire"));
    assert_ne!(normalize("Lullaby"), normalize("Lovesong"));
}

#[test]
fn the_key_is_the_clean_title_folded() {
    for t in ["A Forest (Live)", "Heroes - 2017 Remaster", "  Boys Don't Cry  ", "Ne me quitte pas", "Smells Like Teen Spirit - Live"] {
        let folded: String = clean_title(t).to_lowercase().chars().filter(|c| c.is_alphanumeric()).collect();
        assert_eq!(normalize(t), folded, "{t}");
    }
    assert_eq!(normalize("A Forest (Live)"), "aforest");
}
