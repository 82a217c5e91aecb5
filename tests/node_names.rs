use curved::node_names::{
    is_valid_animal_genome_chicken_qtl_node_name, is_valid_chromosome_ontology_node_name,
    is_valid_mental_functioning_ontology_node_name, is_valid_protein_modification_node_name,
    is_valid_yeast_genome_reference_node_name,
};

#[test]
fn chicken_qtl_names() {
    assert!(is_valid_animal_genome_chicken_qtl_node_name("chickenQTL:1768"));
    assert!(is_valid_animal_genome_chicken_qtl_node_name("CHICKENQTL:1"));
    assert!(!is_valid_animal_genome_chicken_qtl_node_name("PizzaQuattroStagioni"));
    assert!(!is_valid_animal_genome_chicken_qtl_node_name("chickenQTL"));
    assert!(!is_valid_animal_genome_chicken_qtl_node_name("chickenQTL_1768"));
}

#[test]
fn chromosome_ontology_names() {
    assert!(is_valid_chromosome_ontology_node_name("CHR:10090chr10"));
    assert!(is_valid_chromosome_ontology_node_name("chr:9606chrX"));
    assert!(!is_valid_chromosome_ontology_node_name("PizzaQuattroStagioni"));
    assert!(!is_valid_chromosome_ontology_node_name("CH:10090"));
}

#[test]
fn mental_functioning_names() {
    assert!(is_valid_mental_functioning_ontology_node_name("MF:0000013"));
    assert!(!is_valid_mental_functioning_ontology_node_name("PizzaQuattroStagioni"));
    assert!(!is_valid_mental_functioning_ontology_node_name("MF:000001"));
    assert!(!is_valid_mental_functioning_ontology_node_name("MF:00000a3"));
    assert!(!is_valid_mental_functioning_ontology_node_name("MF-0000013"));
}

#[test]
fn protein_modification_names() {
    assert!(is_valid_protein_modification_node_name("MOD:00764"));
    assert!(is_valid_protein_modification_node_name("mod:00764"));
    assert!(!is_valid_protein_modification_node_name("PizzaQuattroStagioni"));
    assert!(!is_valid_protein_modification_node_name("MOD:007645"));
    assert!(!is_valid_protein_modification_node_name("MOD:0076X"));
}

#[test]
fn yeast_genome_reference_names() {
    assert!(is_valid_yeast_genome_reference_node_name("SGD_REF:S000059951"));
    assert!(!is_valid_yeast_genome_reference_node_name("PizzaQuattroStagioni"));
    assert!(!is_valid_yeast_genome_reference_node_name("SGD_REF:X000059951"));
    assert!(!is_valid_yeast_genome_reference_node_name("SGD_REF:S00005995A"));
    assert!(!is_valid_yeast_genome_reference_node_name("SGD_REF:S0000599512"));
}
