use sparse_store::indice::construir_indice_parcial;
use sparse_store::pedido::{
    buscar_pedido_com_overflow, buscar_pedido_no_overflow, busca_binaria_arquivo_pedido,
    consultar_com_indice_pedido, consultar_pedido_com_indice_e_overflow, inserir_novo_pedido,
    inserir_pedidos_ordenados, mostrar_pedidos, reconstruir_arquivo_e_indice_pedido,
    remover_pedido, remover_pedido_com_overflow, remover_pedido_do_overflow, Pedido, PEDIDO_WIDTH,
};

fn pedido(id: i64) -> Pedido {
    Pedido {
        order_id: id,
        user_id: 1515915625,
        event_time: "2018-12-01 11:40:29 UTC".to_string(),
        product_id: 100 + id,
        price_bits: 561.51f64.to_bits(),
    }
}

fn fifty_orders() -> Vec<u8> {
    let mut ps: Vec<Pedido> = (1..=50).rev().map(pedido).collect();
    inserir_pedidos_ordenados(&mut ps)
}

#[test]
fn fifty_orders_lookup_reads_one_window() {
    let primary = fifty_orders();
    assert_eq!(primary.len(), 3100);
    let idx = construir_indice_parcial(&primary, PEDIDO_WIDTH, 10);
    assert_eq!(idx.entradas.len(), 5);
    let (i, start) = idx.buscar_posicao(25).unwrap();
    assert_eq!((i, start), (2, 1240));
    let end = idx.entradas[i + 1].posicao;
    assert!((end - start) / 62 <= 10);
    let overflow: Vec<u8> = Vec::new();
    let found = consultar_pedido_com_indice_e_overflow(&primary, &overflow, &idx, 25).unwrap();
    assert_eq!(found, pedido(25));
    assert_eq!(consultar_com_indice_pedido(&primary, &idx, 25).unwrap(), pedido(25));
}

#[test]
fn orders_dump_and_binary_search() {
    let primary = fifty_orders();
    let first: Vec<i64> = mostrar_pedidos(&primary, 3).iter().map(|p| p.order_id).collect();
    assert_eq!(first, vec![1, 2, 3]);
    assert_eq!(busca_binaria_arquivo_pedido(&primary, 37).unwrap(), pedido(37));
    assert!(busca_binaria_arquivo_pedido(&primary, 51).is_none());
    let overflow = pedido(60).to_bytes();
    assert_eq!(buscar_pedido_com_overflow(&primary, &overflow, 60).unwrap().order_id, 60);
    assert_eq!(buscar_pedido_no_overflow(&overflow, 60).unwrap(), pedido(60));
    assert!(buscar_pedido_no_overflow(&overflow, 61).is_none());
}

#[test]
fn orders_insert_delete_reorganize() {
    let mut primary = fifty_orders();
    let mut overflow: Vec<u8> = Vec::new();
    let mut idx = construir_indice_parcial(&primary, PEDIDO_WIDTH, 10);
    for id in 51..=55 {
        assert_eq!(inserir_novo_pedido(&mut primary, &mut overflow, &pedido(id), &mut idx), Ok(false));
    }
    assert_eq!(overflow.len(), 5 * 62);
    assert_eq!(inserir_novo_pedido(&mut primary, &mut overflow, &pedido(56), &mut idx), Ok(true));
    assert!(overflow.is_empty());
    assert_eq!(primary.len(), 56 * 62);
    assert!(remover_pedido_com_overflow(&mut primary, &mut overflow, 30));
    assert!(consultar_pedido_com_indice_e_overflow(&primary, &overflow, &idx, 30).is_none());
    assert_eq!(consultar_pedido_com_indice_e_overflow(&primary, &overflow, &idx, 56).unwrap(), pedido(56));
    assert!(!remover_pedido(&mut primary, 30));
    overflow.extend_from_slice(&pedido(70).to_bytes());
    assert!(remover_pedido_do_overflow(&mut overflow, 70));
    reconstruir_arquivo_e_indice_pedido(&mut primary, &mut overflow, &mut idx);
    assert_eq!(primary.len(), 55 * 62);
    assert_eq!(idx.entradas.len(), 6);
    assert!(overflow.is_empty());
}
