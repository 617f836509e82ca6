use sparse_store::indice::{construir_indice_parcial, IndiceParcial, StoreError};
use sparse_store::produto::{
    buscar_no_overflow, buscar_produto_com_overflow, busca_binaria_arquivo,
    consultar_com_indice, consultar_com_indice_e_overflow, inserir_novo_produto,
    inserir_produtos_ordenados, mostrar_produtos, reconstruir_arquivo_e_indice,
    remover_do_overflow, remover_produto, remover_produto_com_overflow, Produto, PRODUTO_WIDTH,
};

fn produto(id: i64) -> Produto {
    Produto {
        product_id: id,
        category_alias: "ring".to_string(),
        price_bits: 1.0f64.to_bits(),
        material: "gold".to_string(),
        stone: "none".to_string(),
    }
}

fn three_products() -> Vec<u8> {
    let mut ps = vec![produto(3), produto(1), produto(2)];
    inserir_produtos_ordenados(&mut ps)
}

fn ids(ps: &[Produto]) -> Vec<i64> {
    ps.iter().map(|p| p.product_id).collect()
}

#[test]
fn bulk_load_sorts_by_id() {
    let mut ps = vec![produto(3), produto(1), produto(2)];
    let primary = inserir_produtos_ordenados(&mut ps);
    assert_eq!(ids(&ps), vec![1, 2, 3]);
    assert_eq!(primary.len(), 3 * 87);
    assert_eq!(ids(&mostrar_produtos(&primary, 3)), vec![1, 2, 3]);
}

#[test]
fn dump_prefix_stops_at_limit_and_at_end() {
    let primary = three_products();
    assert_eq!(ids(&mostrar_produtos(&primary, 2)), vec![1, 2]);
    assert_eq!(ids(&mostrar_produtos(&primary, 10)), vec![1, 2, 3]);
    assert!(mostrar_produtos(&[], 5).is_empty());
}

#[test]
fn index_with_factor_one_over_three_products() {
    let primary = three_products();
    let idx = construir_indice_parcial(&primary, PRODUTO_WIDTH, 1);
    let keys: Vec<i64> = idx.entradas.iter().map(|e| e.chave).collect();
    let offs: Vec<u64> = idx.entradas.iter().map(|e| e.posicao).collect();
    assert_eq!(keys, vec![1, 2, 3]);
    assert_eq!(offs, vec![0, 87, 174]);
    assert_eq!(idx.fator_esparsidade, 1);
}

#[test]
fn insert_appends_one_record_then_reorganizes_small_store() {
    let mut primary = three_products();
    let mut overflow: Vec<u8> = Vec::new();
    let mut idx = construir_indice_parcial(&primary, PRODUTO_WIDTH, 1);
    // One record is 87 bytes; 87 exceeds a tenth of a 261-byte primary.
    assert_eq!(produto(4).to_bytes().len(), 87);
    let r = inserir_novo_produto(&mut primary, &mut overflow, &produto(4), &mut idx);
    assert_eq!(r, Ok(true));
    assert_eq!(overflow.len(), 0);
    assert_eq!(primary.len(), 4 * 87);
    let found = consultar_com_indice_e_overflow(&primary, &overflow, &idx, 4).unwrap();
    assert_eq!(found, produto(4));
    assert!(consultar_com_indice_e_overflow(&primary, &overflow, &idx, 5).is_none());
}

#[test]
fn insert_stays_in_overflow_below_threshold() {
    let mut ps: Vec<Produto> = (1..=20).map(produto).collect();
    let mut primary = inserir_produtos_ordenados(&mut ps);
    let mut overflow: Vec<u8> = Vec::new();
    let mut idx = construir_indice_parcial(&primary, PRODUTO_WIDTH, 5);
    let r = inserir_novo_produto(&mut primary, &mut overflow, &produto(40), &mut idx);
    assert_eq!(r, Ok(false));
    assert_eq!(overflow.len(), 87);
    assert_eq!(primary.len(), 20 * 87);
    let found = consultar_com_indice_e_overflow(&primary, &overflow, &idx, 40).unwrap();
    assert_eq!(found.product_id, 40);
    assert!(consultar_com_indice_e_overflow(&primary, &overflow, &idx, 41).is_none());
    assert_eq!(buscar_no_overflow(&overflow, 40).unwrap().product_id, 40);
    assert!(consultar_com_indice(&primary, &idx, 40).is_none());
}

#[test]
fn insert_with_tombstone_id_is_refused() {
    let mut primary = three_products();
    let mut overflow: Vec<u8> = Vec::new();
    let mut idx = construir_indice_parcial(&primary, PRODUTO_WIDTH, 1);
    let before = primary.clone();
    let r = inserir_novo_produto(&mut primary, &mut overflow, &produto(-1), &mut idx);
    assert_eq!(r, Err(StoreError::InvalidInput));
    assert_eq!(primary, before);
    assert!(overflow.is_empty());
}

#[test]
fn delete_tombstones_key_field() {
    let mut primary = three_products();
    let mut overflow: Vec<u8> = Vec::new();
    let idx = construir_indice_parcial(&primary, PRODUTO_WIDTH, 1);
    assert!(remover_produto_com_overflow(&mut primary, &mut overflow, 2));
    assert_eq!(&primary[87..95], &[0xFFu8; 8]);
    assert_eq!(primary.len(), 3 * 87);
    assert!(consultar_com_indice_e_overflow(&primary, &overflow, &idx, 2).is_none());
    assert_eq!(consultar_com_indice_e_overflow(&primary, &overflow, &idx, 1).unwrap().product_id, 1);
    assert_eq!(consultar_com_indice_e_overflow(&primary, &overflow, &idx, 3).unwrap().product_id, 3);
    assert!(!remover_produto_com_overflow(&mut primary, &mut overflow, 2));
}

#[test]
fn delete_reaches_overflow_and_misses_unknown_ids() {
    let mut ps: Vec<Produto> = (1..=20).map(produto).collect();
    let mut primary = inserir_produtos_ordenados(&mut ps);
    let mut overflow: Vec<u8> = Vec::new();
    let mut idx = construir_indice_parcial(&primary, PRODUTO_WIDTH, 4);
    inserir_novo_produto(&mut primary, &mut overflow, &produto(50), &mut idx).unwrap();
    assert!(remover_produto_com_overflow(&mut primary, &mut overflow, 50));
    assert_eq!(&overflow[0..8], &[0xFFu8; 8]);
    assert!(consultar_com_indice_e_overflow(&primary, &overflow, &idx, 50).is_none());
    assert!(!remover_produto_com_overflow(&mut primary, &mut overflow, 99));
    assert!(!remover_produto_com_overflow(&mut primary, &mut overflow, -1));
    assert!(!remover_do_overflow(&mut overflow, 50));
    assert!(remover_produto(&mut primary, 7));
    assert!(!remover_produto(&mut primary, 7));
}

#[test]
fn hundred_products_reorganize_on_eleventh_insert() {
    let mut ps: Vec<Produto> = (1..=100).map(produto).collect();
    let mut primary = inserir_produtos_ordenados(&mut ps);
    let mut overflow: Vec<u8> = Vec::new();
    let mut idx = construir_indice_parcial(&primary, PRODUTO_WIDTH, 10);
    let offs: Vec<u64> = idx.entradas.iter().map(|e| e.posicao).collect();
    assert_eq!(offs, (0..10).map(|j| j * 870).collect::<Vec<u64>>());
    for id in 101..=110 {
        let r = inserir_novo_produto(&mut primary, &mut overflow, &produto(id), &mut idx);
        assert_eq!(r, Ok(false));
    }
    assert_eq!(overflow.len(), 870);
    let r = inserir_novo_produto(&mut primary, &mut overflow, &produto(111), &mut idx);
    assert_eq!(r, Ok(true));
    assert_eq!(overflow.len(), 0);
    assert_eq!(primary.len(), 111 * 87);
    assert_eq!(primary.len(), 9657);
    assert_eq!(idx.entradas.len(), 12);
    for id in 1..=111 {
        let p = consultar_com_indice_e_overflow(&primary, &overflow, &idx, id).unwrap();
        assert_eq!(p.product_id, id);
    }
}

#[test]
fn reorganize_drops_tombstones_and_keeps_last_duplicate() {
    let mut ps: Vec<Produto> = (1..=5).map(produto).collect();
    let mut primary = inserir_produtos_ordenados(&mut ps);
    let mut overflow: Vec<u8> = Vec::new();
    let mut newer = produto(3);
    newer.stone = "ruby".to_string();
    overflow.extend_from_slice(&produto(9).to_bytes());
    overflow.extend_from_slice(&newer.to_bytes());
    assert!(remover_produto(&mut primary, 2));
    let mut idx = IndiceParcial::novo(2);
    reconstruir_arquivo_e_indice(&mut primary, &mut overflow, &mut idx);
    assert!(overflow.is_empty());
    assert_eq!(ids(&mostrar_produtos(&primary, 100)), vec![1, 3, 4, 5, 9]);
    assert_eq!(mostrar_produtos(&primary, 100)[1].stone, "ruby");
    let keys: Vec<i64> = idx.entradas.iter().map(|e| e.chave).collect();
    assert_eq!(keys, vec![1, 4, 9]);
    assert_eq!(primary.len() % PRODUTO_WIDTH, 0);
}

#[test]
fn reorganize_twice_gives_same_files() {
    let mut ps: Vec<Produto> = (1..=30).rev().map(produto).collect();
    let mut primary = inserir_produtos_ordenados(&mut ps);
    let mut overflow: Vec<u8> = Vec::new();
    overflow.extend_from_slice(&produto(77).to_bytes());
    assert!(remover_produto(&mut primary, 5));
    let mut idx = IndiceParcial::novo(4);
    reconstruir_arquivo_e_indice(&mut primary, &mut overflow, &mut idx);
    let (p1, i1) = (primary.clone(), idx.salvar_binario());
    reconstruir_arquivo_e_indice(&mut primary, &mut overflow, &mut idx);
    assert_eq!(primary, p1);
    assert_eq!(idx.salvar_binario(), i1);
    assert!(overflow.is_empty());
}

#[test]
fn binary_search_of_primary_and_overflow() {
    let mut ps: Vec<Produto> = (1..=9).map(|i| produto(i * 2)).collect();
    let primary = inserir_produtos_ordenados(&mut ps);
    let overflow = produto(5).to_bytes();
    assert_eq!(busca_binaria_arquivo(&primary, 8).unwrap().product_id, 8);
    assert!(busca_binaria_arquivo(&primary, 7).is_none());
    assert_eq!(buscar_produto_com_overflow(&primary, &overflow, 18).unwrap().product_id, 18);
    assert_eq!(buscar_produto_com_overflow(&primary, &overflow, 5).unwrap().product_id, 5);
    assert!(buscar_produto_com_overflow(&primary, &overflow, 7).is_none());
}

#[test]
fn lookups_follow_inserts_and_deletes() {
    let mut ps: Vec<Produto> = [17, 4, 9, 1, 30, 22, 12, 8].iter().map(|&i| produto(i)).collect();
    let mut primary = inserir_produtos_ordenados(&mut ps);
    let mut overflow: Vec<u8> = Vec::new();
    let mut idx = construir_indice_parcial(&primary, PRODUTO_WIDTH, 3);
    let mut live: Vec<i64> = vec![17, 4, 9, 1, 30, 22, 12, 8];
    for (step, id) in [40i64, 2, 13].iter().enumerate() {
        inserir_novo_produto(&mut primary, &mut overflow, &produto(*id), &mut idx).unwrap();
        live.push(*id);
        let gone = live.remove(step * 2);
        assert!(remover_produto_com_overflow(&mut primary, &mut overflow, gone));
        assert!(consultar_com_indice_e_overflow(&primary, &overflow, &idx, gone).is_none());
    }
    for id in &live {
        let p = consultar_com_indice_e_overflow(&primary, &overflow, &idx, *id).unwrap();
        assert_eq!(p, produto(*id));
    }
    for id in [0i64, 3, 100, -1] {
        assert!(consultar_com_indice_e_overflow(&primary, &overflow, &idx, id).is_none());
    }
    assert_eq!(primary.len() % 87, 0);
    assert_eq!(overflow.len() % 87, 0);
}
